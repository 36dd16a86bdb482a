//! Stroke triangulation: a polyline and a thickness become a triangle list that
//! covers a constant-width band around the polyline, with mitered joints.
use crate::arith::{
    abs, div_round, isqrt, isqrt_of, lemma_div_round_bound, lemma_div_round_shrinks,
    lemma_isqrt_is_largest, lemma_mul_bound, round_div,
};
use crate::geometry::{all_within, all_within_exec, point, GeometryError, Point2};
use vstd::prelude::*;

verus! {

/// Fixed-point one for directions and miter lengths: a unit vector has length `UNIT`.
pub const UNIT: i64 = 0x8000;

/// The largest magnitude of a polyline coordinate that `stroke` accepts.
pub const COORD_LIMIT: i64 = 0x1_0000_0000;

/// The offset direction and length at one vertex of a stroke. `dir` is a unit
/// vector scaled by `UNIT`; `length` is in coordinate units scaled by `UNIT`.
#[derive(Clone, Copy, Debug, PartialEq, Eq, Structural)]
pub struct Miter {
    pub dir: Point2,
    pub length: u128,
}

/// `UNIT` squared.
pub open spec fn unit_sq() -> int {
    UNIT * UNIT
}

/// Half the thickness, scaled by `UNIT`; exact, as `UNIT` is even.
pub open spec fn half_width(thickness: int) -> int {
    thickness * (UNIT / 2)
}

/// The dot product of two vectors.
pub open spec fn dot(a: Point2, b: Point2) -> int {
    a.x * b.x + a.y * b.y
}

/// The vector `v` scaled to length `UNIT` and rounded: `v / |v| * UNIT`.
pub open spec fn normalized(vx: int, vy: int) -> Point2 {
    let len = isqrt_of((vx * vx + vy * vy) * unit_sq());
    point(div_round(vx * unit_sq(), len), div_round(vy * unit_sq(), len))
}

/// The unit normal of the segment from `a` to `b`: its direction turned a quarter
/// turn counterclockwise, `(-dy, dx) / |(dx, dy)|`, scaled by `UNIT`.
pub open spec fn unit_normal(a: Point2, b: Point2) -> Point2 {
    normalized(-(b.y - a.y), b.x - a.x)
}

/// The normals of the segments of a polyline, one per consecutive pair of points.
pub open spec fn normals_spec(pts: Seq<Point2>) -> Seq<Point2> {
    Seq::new((pts.len() - 1) as nat, |i: int| unit_normal(pts[i], pts[i + 1]))
}

/// The polyline turns back at a joint whose segments have normals `a` then `b`:
/// they differ, and their sum is zero or its direction has no positive component
/// along `b`, so the miter would have no finite positive length.
pub open spec fn folds(a: Point2, b: Point2) -> bool {
    &&& a != b
    &&& ((a.x + b.x == 0 && a.y + b.y == 0) || dot(normalized(a.x + b.x, a.y + b.y), b) <= 0)
}

/// The miter at a joint between segments with normals `a` then `b`, for the half
/// width `h`: direction `normalize(a + b)`, length `h / dot(direction, b)`. Where
/// both normals are the same the direction is `b` and the length `h`, which is the
/// same formula without the rounding.
pub open spec fn joint_miter(a: Point2, b: Point2, h: int) -> Miter {
    if a == b {
        Miter { dir: b, length: h as u128 }
    } else {
        let m = normalized(a.x + b.x, a.y + b.y);
        Miter { dir: m, length: div_round(h * unit_sq(), dot(m, b)) as u128 }
    }
}

/// The miter at vertex `i`: at either end the normal of the adjacent segment with
/// half the thickness, at a joint the corrected miter.
pub open spec fn miter_at(pts: Seq<Point2>, thickness: int, i: int) -> Miter {
    let ns = normals_spec(pts);
    let h = half_width(thickness);
    if i == 0 {
        Miter { dir: ns[0], length: h as u128 }
    } else if i == pts.len() - 1 {
        Miter { dir: ns[pts.len() - 2], length: h as u128 }
    } else {
        joint_miter(ns[i - 1], ns[i], h)
    }
}

/// The miters of every vertex of a polyline.
pub open spec fn miters_spec(pts: Seq<Point2>, thickness: int) -> Seq<Miter> {
    Seq::new(pts.len(), |i: int| miter_at(pts, thickness, i))
}

/// The offset of a miter in coordinate units: `dir * length`, unscaled and rounded.
pub open spec fn offset(m: Miter) -> Point2 {
    point(div_round(m.dir.x * m.length, unit_sq()), div_round(m.dir.y * m.length, unit_sq()))
}

/// The vertex on the left side of the stroke at `p`.
pub open spec fn left_of(p: Point2, m: Miter) -> Point2 {
    point(p.x + offset(m).x, p.y + offset(m).y)
}

/// The vertex on the right side of the stroke at `p`.
pub open spec fn right_of(p: Point2, m: Miter) -> Point2 {
    point(p.x - offset(m).x, p.y - offset(m).y)
}

/// The two triangles that cover segment `i`: (left `i`, left `i + 1`, right `i + 1`)
/// and (right `i + 1`, right `i`, left `i`).
pub open spec fn segment_quad(pts: Seq<Point2>, ms: Seq<Miter>, i: int) -> Seq<Point2> {
    let l0 = left_of(pts[i], ms[i]);
    let r0 = right_of(pts[i], ms[i]);
    let l1 = left_of(pts[i + 1], ms[i + 1]);
    let r1 = right_of(pts[i + 1], ms[i + 1]);
    seq![l0, l1, r1, r1, r0, l0]
}

/// The triangle list of a stroke: the quads of every segment, in order.
pub open spec fn stroke_spec(pts: Seq<Point2>, thickness: int) -> Seq<Point2> {
    let ms = miters_spec(pts, thickness);
    Seq::new((6 * (pts.len() - 1)) as nat, |k: int| segment_quad(pts, ms, k / 6)[k % 6])
}

/// Two consecutive points of the polyline coincide.
pub open spec fn has_repeat(pts: Seq<Point2>) -> bool {
    exists|i: int| 0 <= i < pts.len() - 1 && #[trigger] pts[i] == pts[i + 1]
}

/// The polyline turns back on itself at some joint.
pub open spec fn has_fold(pts: Seq<Point2>) -> bool {
    let ns = normals_spec(pts);
    exists|i: int| 1 <= i < pts.len() - 1 && #[trigger] folds(ns[i - 1], ns[i])
}

/// Why the normals of a polyline cannot be taken, if they cannot.
pub open spec fn polyline_error(pts: Seq<Point2>) -> Option<GeometryError> {
    if pts.len() < 2 {
        Some(GeometryError::TooFewPoints)
    } else if !all_within(pts, COORD_LIMIT as int) {
        Some(GeometryError::OutOfRange)
    } else if has_repeat(pts) {
        Some(GeometryError::RepeatedPoint)
    } else {
        None
    }
}

/// Why a polyline cannot be stroked at a thickness, if it cannot.
pub open spec fn stroke_error(pts: Seq<Point2>, thickness: int) -> Option<GeometryError> {
    if pts.len() < 2 {
        Some(GeometryError::TooFewPoints)
    } else if thickness == 0 {
        Some(GeometryError::InvalidThickness)
    } else if polyline_error(pts) is Some {
        polyline_error(pts)
    } else if has_fold(pts) {
        Some(GeometryError::FoldBack)
    } else {
        None
    }
}

/// Normalizes a nonzero vector to length `UNIT`.
fn normalize_exec(vx: i64, vy: i64) -> (r: Point2)
    requires
        vx != 0 || vy != 0,
        abs(vx as int) <= 0x2_0000_0000,
        abs(vy as int) <= 0x2_0000_0000,
    ensures
        r == normalized(vx as int, vy as int),
        abs(r.x as int) <= UNIT,
        abs(r.y as int) <= UNIT,
{
    let uu: i128 = (UNIT as i128) * (UNIT as i128);
    assert(0 <= vx * vx <= 0x4_0000_0000_0000_0000 && 0 <= vy * vy <= 0x4_0000_0000_0000_0000) by (nonlinear_arith)
        requires
            abs(vx as int) <= 0x2_0000_0000,
            abs(vy as int) <= 0x2_0000_0000,
    ;
    let sq = (vx as i128) * (vx as i128) + (vy as i128) * (vy as i128);
    assert(1 <= sq) by (nonlinear_arith)
        requires
            sq == vx * vx + vy * vy,
            vx != 0 || vy != 0,
    ;
    assert(sq * uu <= 0x8_0000_0000_0000_0000 * 0x4000_0000) by (nonlinear_arith)
        requires
            sq <= 0x8_0000_0000_0000_0000,
            uu == 0x4000_0000,
    ;
    let len = isqrt((sq * uu) as u128);
    proof {
        // The scaled length is at least UNIT, and at least each scaled coordinate.
        assert(UNIT * UNIT <= sq * uu) by (nonlinear_arith)
            requires
                sq >= 1,
                uu == UNIT * UNIT,
        ;
        lemma_isqrt_is_largest(len as int, (sq * uu) as int, UNIT as int);
        assert(abs(vx as int) * UNIT * (abs(vx as int) * UNIT) <= sq * uu) by (nonlinear_arith)
            requires
                sq == vx * vx + vy * vy,
                uu == UNIT * UNIT,
                vy * vy >= 0,
        ;
        assert(abs(vy as int) * UNIT * (abs(vy as int) * UNIT) <= sq * uu) by (nonlinear_arith)
            requires
                sq == vx * vx + vy * vy,
                uu == UNIT * UNIT,
                vx * vx >= 0,
        ;
        assert(abs(vx as int) * UNIT >= 0 && abs(vy as int) * UNIT >= 0) by (nonlinear_arith);
        lemma_isqrt_is_largest(len as int, (sq * uu) as int, abs(vx as int) * UNIT);
        lemma_isqrt_is_largest(len as int, (sq * uu) as int, abs(vy as int) * UNIT);
        assert(abs(vx * uu) <= UNIT * len && abs(vy * uu) <= UNIT * len) by (nonlinear_arith)
            requires
                abs(vx as int) * UNIT <= len,
                abs(vy as int) * UNIT <= len,
                uu == UNIT * UNIT,
        ;
        lemma_div_round_bound(vx * uu, len as int, UNIT as int);
        lemma_div_round_bound(vy * uu, len as int, UNIT as int);
    }
    assert(abs(vx * uu) <= 0x2_0000_0000 * 0x4000_0000 && abs(vy * uu) <= 0x2_0000_0000 * 0x4000_0000) by (nonlinear_arith)
        requires
            abs(vx as int) <= 0x2_0000_0000,
            abs(vy as int) <= 0x2_0000_0000,
            uu == 0x4000_0000,
    ;
    let x = round_div((vx as i128) * uu, len as i128);
    let y = round_div((vy as i128) * uu, len as i128);
    Point2 { x: x as i64, y: y as i64 }
}

/// The unit normal of the segment from `a` to `b`, scaled by `UNIT`: the segment's
/// direction turned a quarter turn counterclockwise.
pub fn segment_normal(a: Point2, b: Point2) -> (r: Point2)
    requires
        a.within(COORD_LIMIT as int),
        b.within(COORD_LIMIT as int),
        a != b,
    ensures
        r == unit_normal(a, b),
        abs(r.x as int) <= UNIT,
        abs(r.y as int) <= UNIT,
{
    normalize_exec(-(b.y - a.y), b.x - a.x)
}

/// The longest miter any thickness can give: the half width of the thickest
/// stroke, divided by the smallest positive dot product.
pub open spec fn max_miter_length() -> int {
    half_width(0xffff_ffff) * unit_sq()
}

proof fn lemma_max_miter_length()
    ensures
        max_miter_length() == 0xffff_ffff * 0x4000 * 0x4000_0000,
        half_width(0xffff_ffff) == 0xffff_ffff * 0x4000,
{
}

/// The miter at a joint between segments with normals `a` then `b`, or `None`
/// where the polyline turns back there.
fn joint_miter_exec(a: Point2, b: Point2, h: u128) -> (r: Option<Miter>)
    requires
        abs(a.x as int) <= UNIT,
        abs(a.y as int) <= UNIT,
        abs(b.x as int) <= UNIT,
        abs(b.y as int) <= UNIT,
        h <= half_width(0xffff_ffff),
    ensures
        match r {
            None => folds(a, b),
            Some(m) => {
                &&& !folds(a, b)
                &&& m == joint_miter(a, b, h as int)
                &&& abs(m.dir.x as int) <= UNIT
                &&& abs(m.dir.y as int) <= UNIT
                &&& m.length <= max_miter_length()
            },
        },
{
    proof {
        lemma_max_miter_length();
    }
    if a == b {
        return Some(Miter { dir: b, length: h });
    }
    let sx = a.x + b.x;
    let sy = a.y + b.y;
    if sx == 0 && sy == 0 {
        return None;
    }
    let m = normalize_exec(sx, sy);
    assert(abs(m.x * b.x) <= UNIT * UNIT && abs(m.y * b.y) <= UNIT * UNIT) by (nonlinear_arith)
        requires
            abs(m.x as int) <= UNIT,
            abs(m.y as int) <= UNIT,
            abs(b.x as int) <= UNIT,
            abs(b.y as int) <= UNIT,
    ;
    let d = m.x * b.x + m.y * b.y;
    if d <= 0 {
        return None;
    }
    let uu: i128 = (UNIT as i128) * (UNIT as i128);
    assert(h * uu <= max_miter_length()) by (nonlinear_arith)
        requires
            0 <= h <= 0xffff_ffff * 0x4000,
            uu == 0x4000_0000,
            max_miter_length() == 0xffff_ffff * 0x4000 * 0x4000_0000,
    ;
    let length = round_div((h as i128) * uu, d as i128);
    proof {
        lemma_div_round_shrinks(h * uu, d as int);
    }
    Some(Miter { dir: m, length: length as u128 })
}

/// The normals of the segments of a polyline, one per consecutive pair of points,
/// each scaled to length `UNIT`.
pub fn segment_normals(points: &Vec<Point2>) -> (r: Result<Vec<Point2>, GeometryError>)
    ensures
        match r {
            Ok(v) => {
                &&& polyline_error(points@) is None
                &&& v@ == normals_spec(points@)
                &&& forall|i: int|
                    0 <= i < v@.len() ==> abs((#[trigger] v@[i]).x as int) <= UNIT && abs(
                        v@[i].y as int,
                    ) <= UNIT
            },
            Err(e) => polyline_error(points@) == Some(e),
        },
{
    let len = points.len();
    if len < 2 {
        return Err(GeometryError::TooFewPoints);
    }
    if !all_within_exec(points, COORD_LIMIT) {
        return Err(GeometryError::OutOfRange);
    }
    let mut out: Vec<Point2> = Vec::new();
    let mut i: usize = 0;
    while i + 1 < len
        invariant
            2 <= len == points@.len(),
            i < len,
            all_within(points@, COORD_LIMIT as int),
            out@.len() == i,
            forall|j: int| 0 <= j < i ==> #[trigger] out@[j] == unit_normal(points@[j], points@[j + 1]),
            forall|j: int| 0 <= j < i ==> points@[j] != #[trigger] points@[j + 1],
            forall|j: int|
                0 <= j < i ==> abs((#[trigger] out@[j]).x as int) <= UNIT && abs(out@[j].y as int)
                    <= UNIT,
        decreases len - i,
    {
        let a = points[i];
        let b = points[i + 1];
        if a == b {
            assert(points@[i as int] == points@[i + 1]);
            return Err(GeometryError::RepeatedPoint);
        }
        assert(points@[i as int].within(COORD_LIMIT as int));
        assert(points@[i + 1].within(COORD_LIMIT as int));
        let n = segment_normal(a, b);
        out.push(n);
        i = i + 1;
    }
    assert(out@ =~= normals_spec(points@));
    assert(!has_repeat(points@));
    Ok(out)
}

/// The miter of every vertex of a polyline stroked at `thickness`: at each end the
/// normal of the adjacent segment with length `thickness / 2`; at each joint the
/// normalized sum of the two normals, with `thickness / 2` divided by its dot
/// product with the second normal, so that the outer edges meet at the joint.
pub fn miters(points: &Vec<Point2>, thickness: u32) -> (r: Result<Vec<Miter>, GeometryError>)
    ensures
        match r {
            Ok(v) => {
                &&& stroke_error(points@, thickness as int) is None
                &&& v@ == miters_spec(points@, thickness as int)
                &&& forall|i: int|
                    0 <= i < v@.len() ==> {
                        &&& abs((#[trigger] v@[i]).dir.x as int) <= UNIT
                        &&& abs(v@[i].dir.y as int) <= UNIT
                        &&& v@[i].length <= max_miter_length()
                    }
            },
            Err(e) => stroke_error(points@, thickness as int) == Some(e),
        },
{
    let len = points.len();
    if len < 2 {
        return Err(GeometryError::TooFewPoints);
    }
    if thickness == 0 {
        return Err(GeometryError::InvalidThickness);
    }
    let ns = match segment_normals(points) {
        Ok(ns) => ns,
        Err(e) => {
            return Err(e);
        },
    };
    proof {
        lemma_max_miter_length();
    }
    let h: u128 = (thickness as u128) * 0x4000;
    let ghost pts = points@;
    let ghost t = thickness as int;
    let mut out: Vec<Miter> = Vec::new();
    let mut i: usize = 0;
    while i < len
        invariant
            2 <= len == pts.len(),
            pts == points@,
            t == thickness,
            t != 0,
            polyline_error(pts) is None,
            h == half_width(t),
            i <= len,
            ns@ == normals_spec(pts),
            forall|j: int|
                0 <= j < ns@.len() ==> abs((#[trigger] ns@[j]).x as int) <= UNIT && abs(ns@[j].y as int)
                    <= UNIT,
            out@.len() == i,
            forall|j: int| 0 <= j < i ==> #[trigger] out@[j] == miter_at(pts, t, j),
            forall|j: int|
                0 <= j < i ==> {
                    &&& abs((#[trigger] out@[j]).dir.x as int) <= UNIT
                    &&& abs(out@[j].dir.y as int) <= UNIT
                    &&& out@[j].length <= max_miter_length()
                },
            forall|j: int| 1 <= j < i && j < len - 1 ==> !#[trigger] folds(ns@[j - 1], ns@[j]),
        decreases len - i,
    {
        let m = if i == 0 {
            Miter { dir: ns[0], length: h }
        } else if i == len - 1 {
            Miter { dir: ns[len - 2], length: h }
        } else {
            match joint_miter_exec(ns[i - 1], ns[i], h) {
                Some(m) => m,
                None => {
                    assert(folds(normals_spec(pts)[i - 1], normals_spec(pts)[i as int]));
                    assert(has_fold(pts));
                    return Err(GeometryError::FoldBack);
                },
            }
        };
        assert(h <= max_miter_length()) by (nonlinear_arith)
            requires
                h == t * 0x4000,
                0 <= t <= 0xffff_ffff,
                max_miter_length() == 0xffff_ffff * 0x4000 * 0x4000_0000,
        ;
        out.push(m);
        i = i + 1;
    }
    assert(!has_fold(pts));
    assert(out@ =~= miters_spec(pts, t));
    Ok(out)
}

/// The offset of a miter in coordinate units.
fn offset_exec(m: Miter) -> (r: Point2)
    requires
        abs(m.dir.x as int) <= UNIT,
        abs(m.dir.y as int) <= UNIT,
        m.length <= max_miter_length(),
    ensures
        r == offset(m),
        abs(r.x as int) <= 0x2000_0000_0000_0000,
        abs(r.y as int) <= 0x2000_0000_0000_0000,
{
    proof {
        lemma_max_miter_length();
        let bound = 0x2000_0000_0000_0000int;
        lemma_mul_bound(m.dir.x as int, m.length as int, UNIT as int, max_miter_length());
        lemma_mul_bound(m.dir.y as int, m.length as int, UNIT as int, max_miter_length());
        assert(UNIT * max_miter_length() <= bound * unit_sq());
        lemma_div_round_bound(m.dir.x * m.length, unit_sq(), bound);
        lemma_div_round_bound(m.dir.y * m.length, unit_sq(), bound);
    }
    let uu: i128 = (UNIT as i128) * (UNIT as i128);
    let len = m.length as i128;
    let x = round_div((m.dir.x as i128) * len, uu);
    let y = round_div((m.dir.y as i128) * len, uu);
    Point2 { x: x as i64, y: y as i64 }
}

/// Triangulates a stroke of `thickness` along a polyline: two triangles per
/// segment, `6 * (n - 1)` vertices for `n` points, each consecutive triple a
/// triangle, with consistent winding.
pub fn stroke(points: &Vec<Point2>, thickness: u32) -> (r: Result<Vec<Point2>, GeometryError>)
    ensures
        match r {
            Ok(v) => {
                &&& stroke_error(points@, thickness as int) is None
                &&& v@ == stroke_spec(points@, thickness as int)
                &&& v@.len() == 6 * (points@.len() - 1)
            },
            Err(e) => stroke_error(points@, thickness as int) == Some(e),
        },
{
    let ms = match miters(points, thickness) {
        Ok(ms) => ms,
        Err(e) => {
            return Err(e);
        },
    };
    let len = points.len();
    let ghost pts = points@;
    let ghost t = thickness as int;
    let mut lefts: Vec<Point2> = Vec::new();
    let mut rights: Vec<Point2> = Vec::new();
    let mut i: usize = 0;
    while i < len
        invariant
            2 <= len == pts.len(),
            pts == points@,
            t == thickness,
            ms@ == miters_spec(pts, t),
            ms@.len() == len,
            all_within(pts, COORD_LIMIT as int),
            forall|j: int|
                0 <= j < ms@.len() ==> {
                    &&& abs((#[trigger] ms@[j]).dir.x as int) <= UNIT
                    &&& abs(ms@[j].dir.y as int) <= UNIT
                    &&& ms@[j].length <= max_miter_length()
                },
            i <= len,
            lefts@.len() == i,
            rights@.len() == i,
            forall|j: int| 0 <= j < i ==> #[trigger] lefts@[j] == left_of(pts[j], ms@[j]),
            forall|j: int| 0 <= j < i ==> #[trigger] rights@[j] == right_of(pts[j], ms@[j]),
        decreases len - i,
    {
        let p = points[i];
        assert(pts[i as int].within(COORD_LIMIT as int));
        let off = offset_exec(ms[i]);
        lefts.push(Point2 { x: p.x + off.x, y: p.y + off.y });
        rights.push(Point2 { x: p.x - off.x, y: p.y - off.y });
        i = i + 1;
    }
    let mut out: Vec<Point2> = Vec::new();
    let mut k: usize = 0;
    while k + 1 < len
        invariant
            2 <= len == pts.len(),
            ms@ == miters_spec(pts, t),
            lefts@.len() == len,
            rights@.len() == len,
            forall|j: int| 0 <= j < len ==> #[trigger] lefts@[j] == left_of(pts[j], ms@[j]),
            forall|j: int| 0 <= j < len ==> #[trigger] rights@[j] == right_of(pts[j], ms@[j]),
            k < len,
            out@ =~= Seq::new(
                (6 * k) as nat,
                |q: int| segment_quad(pts, miters_spec(pts, t), q / 6)[q % 6],
            ),
        decreases len - k,
    {
        let l0 = lefts[k];
        let r0 = rights[k];
        let l1 = lefts[k + 1];
        let r1 = rights[k + 1];
        out.push(l0);
        out.push(l1);
        out.push(r1);
        out.push(r1);
        out.push(r0);
        out.push(l0);
        k = k + 1;
        assert(out@ =~= Seq::new(
            (6 * k) as nat,
            |q: int| segment_quad(pts, miters_spec(pts, t), q / 6)[q % 6],
        ));
    }
    Ok(out)
}

/// The ends of a stroke get no joint correction: the first and the last offset
/// pairs use the normal of the adjacent segment as direction and exactly half the
/// thickness as length.
pub proof fn stroke_ends_are_plain(pts: Seq<Point2>, thickness: u32)
    requires
        pts.len() >= 2,
    ensures
        miters_spec(pts, thickness as int)[0] == (Miter {
            dir: normals_spec(pts)[0],
            length: half_width(thickness as int) as u128,
        }),
        miters_spec(pts, thickness as int)[pts.len() - 1] == (Miter {
            dir: normals_spec(pts)[pts.len() - 2],
            length: half_width(thickness as int) as u128,
        }),
        stroke_spec(pts, thickness as int)[0] == left_of(
            pts[0],
            miters_spec(pts, thickness as int)[0],
        ),
        stroke_spec(pts, thickness as int)[4] == right_of(
            pts[0],
            miters_spec(pts, thickness as int)[0],
        ),
        stroke_spec(pts, thickness as int)[6 * (pts.len() - 2) + 1] == left_of(
            pts[pts.len() - 1],
            miters_spec(pts, thickness as int)[pts.len() - 1],
        ),
        stroke_spec(pts, thickness as int)[6 * (pts.len() - 2) + 2] == right_of(
            pts[pts.len() - 1],
            miters_spec(pts, thickness as int)[pts.len() - 1],
        ),
{
    let t = thickness as int;
    let last = 6 * (pts.len() - 2);
    assert((last + 1) / 6 == pts.len() - 2 && (last + 1) % 6 == 1);
    assert((last + 2) / 6 == pts.len() - 2 && (last + 2) % 6 == 2);
    assert(segment_quad(pts, miters_spec(pts, t), 0)[0] == left_of(pts[0], miters_spec(pts, t)[0]));
}

/// A straight, evenly spaced polyline (every segment the same vector) needs no
/// joint correction: every interior miter has the common normal as direction and
/// exactly half the thickness as length, and no joint folds back.
pub proof fn straight_stroke_has_plain_miters(pts: Seq<Point2>, thickness: u32)
    requires
        pts.len() >= 2,
        forall|i: int|
            0 <= i < pts.len() - 1 ==> #[trigger] pts[i + 1].x - pts[i].x == pts[1].x - pts[0].x
                && pts[i + 1].y - pts[i].y == pts[1].y - pts[0].y,
    ensures
        forall|i: int|
            1 <= i < pts.len() - 1 ==> #[trigger] miters_spec(pts, thickness as int)[i] == (Miter {
                dir: normals_spec(pts)[0],
                length: half_width(thickness as int) as u128,
            }),
        !has_fold(pts),
        thickness > 0 && all_within(pts, COORD_LIMIT as int) && pts[0] != pts[1] ==> stroke_error(
            pts,
            thickness as int,
        ) is None,
{
    let ns = normals_spec(pts);
    assert forall|i: int| 0 <= i < pts.len() - 1 implies #[trigger] ns[i] == ns[0] by {
        assert(pts[i + 1].x - pts[i].x == pts[1].x - pts[0].x);
    }
    assert forall|i: int| 1 <= i < pts.len() - 1 implies #[trigger] miters_spec(
        pts,
        thickness as int,
    )[i] == (Miter { dir: ns[0], length: half_width(thickness as int) as u128 }) by {
        assert(ns[i - 1] == ns[0]);
        assert(ns[i] == ns[0]);
    }
    assert forall|i: int| 1 <= i < pts.len() - 1 implies !#[trigger] folds(ns[i - 1], ns[i]) by {
        assert(ns[i - 1] == ns[0]);
        assert(ns[i] == ns[0]);
    }
    if thickness > 0 && all_within(pts, COORD_LIMIT as int) && pts[0] != pts[1] {
        assert forall|i: int| 0 <= i < pts.len() - 1 implies #[trigger] pts[i] != pts[i + 1] by {
            assert(pts[i + 1].x - pts[i].x == pts[1].x - pts[0].x);
            assert(pts[i + 1].y - pts[i].y == pts[1].y - pts[0].y);
        }
        assert(!has_repeat(pts));
    }
}

} // verus!
