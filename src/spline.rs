//! Catmull-Rom resampling: a sparse control path becomes a dense polyline through
//! every control point.
use crate::arith::{
    abs, div_round, lemma_div_round_bound, lemma_div_round_exact, lemma_div_round_shrinks,
    lemma_mul_bound, round_div,
};
use crate::geometry::{all_within, all_within_exec, point, GeometryError, Point2};
use crate::stroke::COORD_LIMIT;
use vstd::prelude::*;

verus! {

/// The fewest samples taken between two consecutive control points.
pub const MIN_SEGMENTS: usize = 4;

/// The most samples taken between two consecutive control points.
pub const MAX_SEGMENTS: usize = 32;

/// The largest magnitude of a control point coordinate that `resample` accepts.
pub const CONTROL_LIMIT: i64 = 0x1000_0000;

/// Sampling density: `samples` samples per `length` units of distance.
#[derive(Clone, Copy, Debug, PartialEq, Eq, Structural)]
pub struct Density {
    pub samples: u32,
    pub length: u32,
}

impl Density {
    pub fn new(samples: u32, length: u32) -> (r: Density)
        ensures
            r.samples == samples,
            r.length == length,
    {
        Density { samples, length }
    }

    /// A usable density is positive and has a positive length.
    pub open spec fn is_valid(self) -> bool {
        self.samples > 0 && self.length > 0
    }

    /// `self` is no denser than `other`, compared as ratios.
    pub open spec fn at_most(self, other: Density) -> bool {
        self.samples * other.length <= other.samples * self.length
    }
}

/// The squared distance between two points.
pub open spec fn dist_sq(a: Point2, b: Point2) -> int {
    (b.x - a.x) * (b.x - a.x) + (b.y - a.y) * (b.y - a.y)
}

/// `k` samples are enough for a distance whose square is `d2`, that is
/// `k >= sqrt(d2) * samples / length`, squared on both sides.
pub open spec fn covers(k: int, d2: int, density: Density) -> bool {
    (k * density.length) * (k * density.length) >= d2 * (density.samples * density.samples)
}

/// The least count from `k` up that covers `d2`, or `MAX_SEGMENTS` where none does.
pub open spec fn first_cover(k: int, d2: int, density: Density) -> int
    decreases MAX_SEGMENTS - k,
{
    if k >= MAX_SEGMENTS || covers(k, d2, density) {
        k
    } else {
        first_cover(k + 1, d2, density)
    }
}

/// How many samples a window takes between control points `d2` apart (squared):
/// `ceil(distance * density)`, clamped to `[MIN_SEGMENTS, MAX_SEGMENTS]`.
pub open spec fn segment_count_of(d2: int, density: Density) -> int {
    first_cover(MIN_SEGMENTS as int, d2, density)
}

/// `c` is `ceil(sqrt(d2) * density)` clamped to `[MIN_SEGMENTS, MAX_SEGMENTS]`.
pub open spec fn is_clamped_ceiling(c: int, d2: int, density: Density) -> bool {
    &&& MIN_SEGMENTS <= c <= MAX_SEGMENTS
    &&& (c == MIN_SEGMENTS || !covers(c - 1, d2, density))
    &&& (c == MAX_SEGMENTS || covers(c, d2, density))
}

/// Twice the cube of `n` times the Catmull-Rom curve at `t = i / n`, along one axis:
/// `2 c1 n^3 + (c2 - c0) i n^2 + (2 c0 - 5 c1 + 4 c2 - c3) i^2 n + (3 c1 - c0 - 3 c2 + c3) i^3`.
pub open spec fn cr_numerator(c0: int, c1: int, c2: int, c3: int, i: int, n: int) -> int {
    2 * c1 * (n * n * n) + (c2 - c0) * i * (n * n) + (2 * c0 - 5 * c1 + 4 * c2 - c3) * (i * i) * n
        + (3 * c1 - c0 - 3 * c2 + c3) * (i * i * i)
}

/// The Catmull-Rom curve through `c1` and `c2` at `t = i / n`, along one axis,
/// rounded to the nearest unit.
pub open spec fn cr_coord(c0: int, c1: int, c2: int, c3: int, i: int, n: int) -> int {
    div_round(cr_numerator(c0, c1, c2, c3, i, n), 2 * (n * n * n))
}

/// The Catmull-Rom segment from `p1` to `p2`, with neighbours `p0` and `p3`, at
/// `t = i / n`, rounded to the nearest unit.
pub open spec fn catmull_rom_point(p0: Point2, p1: Point2, p2: Point2, p3: Point2, i: int, n: int) -> Point2 {
    point(
        cr_coord(p0.x as int, p1.x as int, p2.x as int, p3.x as int, i, n),
        cr_coord(p0.y as int, p1.y as int, p2.y as int, p3.y as int, i, n),
    )
}

/// The control points with the first and the last repeated, so that the curve
/// passes through both ends.
pub open spec fn extended(pts: Seq<Point2>) -> Seq<Point2> {
    seq![pts[0]] + pts + seq![pts.last()]
}

/// The samples of window `w` of an extended path: the segment from `ext[w + 1]`
/// to `ext[w + 2]`, at `t = 0, 1/n, ..., (n-1)/n`.
pub open spec fn window_samples(ext: Seq<Point2>, w: int, density: Density) -> Seq<Point2> {
    let n = segment_count_of(dist_sq(ext[w + 1], ext[w + 2]), density);
    Seq::new(
        n as nat,
        |i: int| catmull_rom_point(ext[w], ext[w + 1], ext[w + 2], ext[w + 3], i, n),
    )
}

/// The samples of the first `k` windows, in order.
pub open spec fn samples_through(ext: Seq<Point2>, k: int, density: Density) -> Seq<Point2>
    decreases k,
{
    if k <= 0 {
        Seq::empty()
    } else {
        samples_through(ext, k - 1, density) + window_samples(ext, k - 1, density)
    }
}

/// The resampled polyline: the samples of every window, then the last control point.
pub open spec fn resample_spec(pts: Seq<Point2>, density: Density) -> Seq<Point2> {
    if pts.len() == 0 {
        Seq::empty()
    } else {
        samples_through(extended(pts), pts.len() - 1, density).push(pts.last())
    }
}

/// Why `resample` refuses its input, if it does.
pub open spec fn resample_error(pts: Seq<Point2>, density: Density) -> Option<GeometryError> {
    if !density.is_valid() {
        Some(GeometryError::InvalidDensity)
    } else if !all_within(pts, CONTROL_LIMIT as int) {
        Some(GeometryError::OutOfRange)
    } else {
        None
    }
}

proof fn lemma_first_cover_range(k: int, d2: int, density: Density)
    requires
        k <= MAX_SEGMENTS,
    ensures
        k <= first_cover(k, d2, density) <= MAX_SEGMENTS,
    decreases MAX_SEGMENTS - k,
{
    if k < MAX_SEGMENTS && !covers(k, d2, density) {
        lemma_first_cover_range(k + 1, d2, density);
    }
}

/// Covering is kept by more samples.
proof fn lemma_covers_monotone(j: int, k: int, d2: int, density: Density)
    requires
        0 <= j <= k,
        covers(j, d2, density),
    ensures
        covers(k, d2, density),
{
    let l = density.length as int;
    assert(0 <= j * l <= k * l) by (nonlinear_arith)
        requires
            0 <= j <= k,
            0 <= l,
    ;
    assert((j * l) * (j * l) <= (k * l) * (k * l)) by (nonlinear_arith)
        requires
            0 <= j * l <= k * l,
    ;
}

/// Covering at a density is kept at any lower density.
proof fn lemma_covers_lower_density(k: int, d2: int, lo: Density, hi: Density)
    requires
        0 <= k,
        0 <= d2,
        lo.is_valid(),
        hi.is_valid(),
        lo.at_most(hi),
        covers(k, d2, hi),
    ensures
        covers(k, d2, lo),
{
    let s1 = lo.samples as int;
    let l1 = lo.length as int;
    let s2 = hi.samples as int;
    let l2 = hi.length as int;
    assert((s1 * l2) * (s1 * l2) <= (s2 * l1) * (s2 * l1)) by (nonlinear_arith)
        requires
            0 <= s1 * l2 <= s2 * l1,
    ;
    assert(d2 * ((s1 * l2) * (s1 * l2)) <= d2 * ((s2 * l1) * (s2 * l1))) by (nonlinear_arith)
        requires
            0 <= d2,
            (s1 * l2) * (s1 * l2) <= (s2 * l1) * (s2 * l1),
    ;
    assert(d2 * ((s2 * l1) * (s2 * l1)) <= ((k * l2) * (k * l2)) * (l1 * l1)) by (nonlinear_arith)
        requires
            (k * l2) * (k * l2) >= d2 * (s2 * s2),
    ;
    assert(d2 * (s1 * s1) * (l2 * l2) <= ((k * l1) * (k * l1)) * (l2 * l2)) by (nonlinear_arith)
        requires
            d2 * ((s1 * l2) * (s1 * l2)) <= ((k * l2) * (k * l2)) * (l1 * l1),
    ;
    assert(d2 * (s1 * s1) <= (k * l1) * (k * l1)) by (nonlinear_arith)
        requires
            d2 * (s1 * s1) * (l2 * l2) <= ((k * l1) * (k * l1)) * (l2 * l2),
            l2 > 0,
    ;
}

proof fn lemma_first_cover_density(k: int, d2: int, lo: Density, hi: Density)
    requires
        0 <= k <= MAX_SEGMENTS,
        0 <= d2,
        lo.is_valid(),
        hi.is_valid(),
        lo.at_most(hi),
    ensures
        first_cover(k, d2, lo) <= first_cover(k, d2, hi),
    decreases MAX_SEGMENTS - k,
{
    if k < MAX_SEGMENTS {
        if covers(k, d2, hi) {
            lemma_covers_lower_density(k, d2, lo, hi);
        } else {
            lemma_first_cover_density(k + 1, d2, lo, hi);
            if !covers(k, d2, lo) {
            } else {
                lemma_first_cover_range(k + 1, d2, hi);
            }
        }
    }
}

proof fn lemma_first_cover_is_least(k: int, d2: int, density: Density)
    requires
        0 <= k <= MAX_SEGMENTS,
    ensures
        first_cover(k, d2, density) == MAX_SEGMENTS || covers(first_cover(k, d2, density), d2, density),
        forall|j: int| k <= j < first_cover(k, d2, density) ==> !covers(j, d2, density),
    decreases MAX_SEGMENTS - k,
{
    if k < MAX_SEGMENTS && !covers(k, d2, density) {
        lemma_first_cover_is_least(k + 1, d2, density);
    }
}

/// The count of samples per window is the clamped ceiling of distance times density:
/// it lies in `[MIN_SEGMENTS, MAX_SEGMENTS]`, no smaller count from `MIN_SEGMENTS`
/// up covers the distance, and unless it is `MAX_SEGMENTS` it and every larger
/// count cover it.
pub proof fn segment_count_is_clamped_ceiling(d2: int, density: Density)
    ensures
        is_clamped_ceiling(segment_count_of(d2, density), d2, density),
        MIN_SEGMENTS <= segment_count_of(d2, density) <= MAX_SEGMENTS,
        forall|k: int|
            MIN_SEGMENTS <= k < segment_count_of(d2, density) ==> !#[trigger] covers(k, d2, density),
        forall|k: int|
            segment_count_of(d2, density) <= k && segment_count_of(d2, density) < MAX_SEGMENTS
                ==> #[trigger] covers(k, d2, density),
{
    lemma_first_cover_range(MIN_SEGMENTS as int, d2, density);
    lemma_first_cover_is_least(MIN_SEGMENTS as int, d2, density);
    let c = segment_count_of(d2, density);
    if c != MIN_SEGMENTS {
        assert(!covers(c - 1, d2, density));
    }
    assert forall|k: int| c <= k && c < MAX_SEGMENTS implies #[trigger] covers(k, d2, density) by {
        lemma_covers_monotone(c, k, d2, density);
    }
}

/// How many samples to take between `a` and `b`: `ceil(distance(a, b) * density)`,
/// clamped to `[MIN_SEGMENTS, MAX_SEGMENTS]`.
pub fn segment_count(a: Point2, b: Point2, density: Density) -> (c: usize)
    requires
        a.within(CONTROL_LIMIT as int),
        b.within(CONTROL_LIMIT as int),
    ensures
        c == segment_count_of(dist_sq(a, b), density),
        MIN_SEGMENTS <= c <= MAX_SEGMENTS,
{
    proof {
        segment_count_is_clamped_ceiling(dist_sq(a, b), density);
    }
    let dx = b.x - a.x;
    let dy = b.y - a.y;
    assert(0 <= dx * dx <= 0x400_0000_0000_0000 && 0 <= dy * dy <= 0x400_0000_0000_0000) by (nonlinear_arith)
        requires
            -0x2000_0000 <= dx <= 0x2000_0000,
            -0x2000_0000 <= dy <= 0x2000_0000,
    ;
    let dx2 = (dx as i128) * (dx as i128);
    let dy2 = (dy as i128) * (dy as i128);
    let d2 = (dx2 + dy2) as u128;
    let s = density.samples as u128;
    let l = density.length as u128;
    assert(s * s <= 0x1_0000_0000_0000_0000) by (nonlinear_arith)
        requires
            s <= 0xffff_ffff,
    ;
    let s2 = s * s;
    assert(d2 * s2 <= 0x800_0000_0000_0000 * 0x1_0000_0000_0000_0000) by (nonlinear_arith)
        requires
            s2 == s * s,
            s <= 0xffff_ffff,
            d2 <= 0x800_0000_0000_0000,
    ;
    let need = d2 * s2;
    let mut k: usize = MIN_SEGMENTS;
    while k < MAX_SEGMENTS
        invariant
            MIN_SEGMENTS <= k <= MAX_SEGMENTS,
            first_cover(k as int, d2 as int, density) == segment_count_of(d2 as int, density),
            d2 == dist_sq(a, b),
            need == d2 * (density.samples * density.samples),
            l == density.length,
        ensures
            first_cover(k as int, d2 as int, density) == k,
        decreases MAX_SEGMENTS - k,
    {
        assert((k as int) * (l as int) <= 0x20_0000_0000) by (nonlinear_arith)
            requires
                0 <= k <= 32,
                0 <= l <= 0xffff_ffff,
        ;
        let kl = (k as u128) * l;
        assert(kl * kl <= 0x20_0000_0000 * 0x20_0000_0000) by (nonlinear_arith)
            requires
                0 <= kl <= 0x20_0000_0000,
        ;
        if kl * kl >= need {
            break;
        }
        k = k + 1;
    }
    k
}

/// One coordinate of a Catmull-Rom sample, computed exactly and then rounded.
fn cr_coord_exec(c0: i64, c1: i64, c2: i64, c3: i64, i: i64, n: i64) -> (r: i64)
    requires
        abs(c0 as int) <= CONTROL_LIMIT,
        abs(c1 as int) <= CONTROL_LIMIT,
        abs(c2 as int) <= CONTROL_LIMIT,
        abs(c3 as int) <= CONTROL_LIMIT,
        0 <= i < n <= MAX_SEGMENTS,
    ensures
        r == cr_coord(c0 as int, c1 as int, c2 as int, c3 as int, i as int, n as int),
{
    assert(n * n <= 1024 && i * i <= 1024) by (nonlinear_arith)
        requires
            0 <= i <= 32,
            0 <= n <= 32,
    ;
    let n2 = n * n;
    let i2 = i * i;
    assert(n2 * n <= 32768 && i2 * i <= 32768 && n2 * n >= 1) by (nonlinear_arith)
        requires
            0 <= i <= 32,
            1 <= n <= 32,
            n2 == n * n,
            i2 == i * i,
            n2 <= 1024,
            i2 <= 1024,
    ;
    let n3 = n2 * n;
    let i3 = i2 * i;
    let a = 2 * c1;
    let b = c2 - c0;
    let c = 2 * c0 - 5 * c1 + 4 * c2 - c3;
    let d = 3 * c1 - c0 - 3 * c2 + c3;
    proof {
        lemma_mul_bound(a as int, n3 as int, 0x2000_0000int, 32768int);
        lemma_mul_bound(b as int, i as int, 0x2000_0000int, 32int);
        lemma_mul_bound((b * i) as int, n2 as int, 0x4_0000_0000int, 1024int);
        lemma_mul_bound(c as int, i2 as int, 0xc000_0000int, 1024int);
        lemma_mul_bound((c * i2) as int, n as int, 0x300_0000_0000int, 32int);
        lemma_mul_bound(d as int, i3 as int, 0x8000_0000int, 32768int);
    }
    let num = a * n3 + b * i * n2 + c * i2 * n + d * i3;
    let r = round_div(num as i128, (2 * n3) as i128);
    proof {
        lemma_div_round_shrinks(num as int, 2 * n3 as int);
    }
    r as i64
}

/// The point at `t = i / n` on the Catmull-Rom segment from `p1` to `p2`, whose
/// neighbours are `p0` and `p3`, rounded to the nearest unit.
pub fn catmull_rom(p0: Point2, p1: Point2, p2: Point2, p3: Point2, i: usize, n: usize) -> (r: Point2)
    requires
        p0.within(CONTROL_LIMIT as int),
        p1.within(CONTROL_LIMIT as int),
        p2.within(CONTROL_LIMIT as int),
        p3.within(CONTROL_LIMIT as int),
        i < n <= MAX_SEGMENTS,
    ensures
        r == catmull_rom_point(p0, p1, p2, p3, i as int, n as int),
{
    let x = cr_coord_exec(p0.x, p1.x, p2.x, p3.x, i as i64, n as i64);
    let y = cr_coord_exec(p0.y, p1.y, p2.y, p3.y, i as i64, n as i64);
    Point2 { x, y }
}

/// Resamples a control path into a dense polyline along the Catmull-Rom curve
/// through its points. The first and last points are repeated so that the curve
/// starts and ends on them; each window of four consecutive points gives
/// `segment_count` samples from its second point towards its third; the last
/// control point closes the polyline. An empty path gives an empty polyline.
pub fn resample(points: &Vec<Point2>, density: Density) -> (r: Result<Vec<Point2>, GeometryError>)
    ensures
        match r {
            Ok(v) => resample_error(points@, density) is None && v@ == resample_spec(points@, density),
            Err(e) => resample_error(points@, density) == Some(e),
        },
{
    if density.samples == 0 || density.length == 0 {
        return Err(GeometryError::InvalidDensity);
    }
    if !all_within_exec(points, CONTROL_LIMIT) {
        return Err(GeometryError::OutOfRange);
    }
    let len = points.len();
    if len == 0 {
        return Ok(Vec::new());
    }
    let first = points[0];
    let last = points[len - 1];
    let mut ext: Vec<Point2> = Vec::new();
    ext.push(first);
    let mut j: usize = 0;
    while j < len
        invariant
            j <= len == points@.len(),
            ext@ =~= seq![first] + points@.subrange(0, j as int),
        decreases len - j,
    {
        ext.push(points[j]);
        j = j + 1;
        assert(ext@ =~= seq![first] + points@.subrange(0, j as int));
    }
    ext.push(last);
    assert(points@.subrange(0, len as int) =~= points@);
    assert(ext@ =~= extended(points@));
    assert(forall|k: int| 0 <= k < ext@.len() ==> (#[trigger] ext@[k]).within(CONTROL_LIMIT as int)) by {
        assert forall|k: int| 0 <= k < ext@.len() implies (#[trigger] ext@[k]).within(CONTROL_LIMIT as int) by {
            if 1 <= k < ext@.len() - 1 {
                assert(ext@[k] == points@[k - 1]);
            }
        }
    }
    let mut out: Vec<Point2> = Vec::new();
    let mut w: usize = 0;
    while w + 1 < len
        invariant
            w < len == points@.len(),
            ext@ == extended(points@),
            ext@.len() == len + 2,
            forall|k: int| 0 <= k < ext@.len() ==> (#[trigger] ext@[k]).within(CONTROL_LIMIT as int),
            out@ == samples_through(ext@, w as int, density),
        decreases len - w,
    {
        let p0 = ext[w];
        let p1 = ext[w + 1];
        let p2 = ext[w + 2];
        let p3 = ext[w + 3];
        let n = segment_count(p1, p2, density);
        let ghost window = window_samples(ext@, w as int, density);
        let mut i: usize = 0;
        while i < n
            invariant
                i <= n,
                n == window.len(),
                window == window_samples(ext@, w as int, density),
                w + 3 < ext@.len(),
                n == segment_count_of(dist_sq(p1, p2), density),
                p0 == ext@[w as int],
                p1 == ext@[w + 1],
                p2 == ext@[w + 2],
                p3 == ext@[w + 3],
                p0.within(CONTROL_LIMIT as int),
                p1.within(CONTROL_LIMIT as int),
                p2.within(CONTROL_LIMIT as int),
                p3.within(CONTROL_LIMIT as int),
                n <= MAX_SEGMENTS,
                out@ == samples_through(ext@, w as int, density) + window.subrange(0, i as int),
            decreases n - i,
        {
            let q = catmull_rom(p0, p1, p2, p3, i, n);
            assert(q == window[i as int]);
            out.push(q);
            i = i + 1;
            assert(out@ =~= samples_through(ext@, w as int, density) + window.subrange(0, i as int));
        }
        assert(window.subrange(0, n as int) =~= window);
        w = w + 1;
    }
    out.push(last);
    Ok(out)
}

proof fn lemma_dist_sq_nonneg(a: Point2, b: Point2)
    ensures
        dist_sq(a, b) >= 0,
{
    assert((b.x - a.x) * (b.x - a.x) >= 0) by (nonlinear_arith);
    assert((b.y - a.y) * (b.y - a.y) >= 0) by (nonlinear_arith);
}

proof fn lemma_window_len(ext: Seq<Point2>, w: int, density: Density)
    ensures
        window_samples(ext, w, density).len() == segment_count_of(
            dist_sq(ext[w + 1], ext[w + 2]),
            density,
        ),
        MIN_SEGMENTS <= window_samples(ext, w, density).len() <= MAX_SEGMENTS,
{
    segment_count_is_clamped_ceiling(dist_sq(ext[w + 1], ext[w + 2]), density);
}

proof fn lemma_samples_through_len(ext: Seq<Point2>, k: int, density: Density)
    requires
        k >= 0,
    ensures
        MIN_SEGMENTS * k <= samples_through(ext, k, density).len() <= MAX_SEGMENTS * k,
    decreases k,
{
    if k > 0 {
        lemma_samples_through_len(ext, k - 1, density);
        lemma_window_len(ext, k - 1, density);
    }
}

proof fn lemma_samples_through_first(ext: Seq<Point2>, k: int, density: Density)
    requires
        k >= 1,
    ensures
        samples_through(ext, k, density).len() > 0,
        samples_through(ext, k, density)[0] == window_samples(ext, 0, density)[0],
    decreases k,
{
    lemma_window_len(ext, k - 1, density);
    lemma_window_len(ext, 0, density);
    if k > 1 {
        lemma_samples_through_first(ext, k - 1, density);
    } else {
        assert(samples_through(ext, 0, density) == Seq::<Point2>::empty());
        assert(samples_through(ext, 1, density) =~= window_samples(ext, 0, density));
    }
}

proof fn lemma_cr_coord_start(c0: int, c1: int, c2: int, c3: int, n: int)
    requires
        n >= 1,
    ensures
        cr_coord(c0, c1, c2, c3, 0, n) == c1,
{
    let n3 = n * n * n;
    assert(n3 >= 1) by (nonlinear_arith)
        requires
            n >= 1,
            n3 == n * n * n,
    ;
    assert(cr_numerator(c0, c1, c2, c3, 0, n) == c1 * (2 * n3)) by (nonlinear_arith)
        requires
            n3 == n * n * n,
    ;
    lemma_div_round_exact(c1, 2 * n3);
}

/// Resampling keeps the ends: the polyline starts exactly at the first control
/// point and ends exactly at the last.
pub proof fn resample_keeps_endpoints(pts: Seq<Point2>, density: Density)
    requires
        pts.len() >= 2,
    ensures
        resample_spec(pts, density).len() >= 2,
        resample_spec(pts, density)[0] == pts[0],
        resample_spec(pts, density).last() == pts.last(),
{
    let ext = extended(pts);
    let k = pts.len() - 1;
    lemma_samples_through_first(ext, k, density);
    lemma_window_len(ext, 0, density);
    let n = segment_count_of(dist_sq(ext[1], ext[2]), density);
    assert(ext[1] == pts[0]);
    lemma_cr_coord_start(ext[0].x as int, ext[1].x as int, ext[2].x as int, ext[3].x as int, n);
    lemma_cr_coord_start(ext[0].y as int, ext[1].y as int, ext[2].y as int, ext[3].y as int, n);
    assert(window_samples(ext, 0, density)[0] == catmull_rom_point(ext[0], ext[1], ext[2], ext[3], 0, n));
}

proof fn lemma_samples_through_density(ext: Seq<Point2>, k: int, lo: Density, hi: Density)
    requires
        k >= 0,
        lo.is_valid(),
        hi.is_valid(),
        lo.at_most(hi),
    ensures
        samples_through(ext, k, lo).len() <= samples_through(ext, k, hi).len(),
    decreases k,
{
    if k > 0 {
        lemma_samples_through_density(ext, k - 1, lo, hi);
        lemma_window_len(ext, k - 1, lo);
        lemma_window_len(ext, k - 1, hi);
        lemma_dist_sq_nonneg(ext[k], ext[k + 1]);
        lemma_first_cover_density(MIN_SEGMENTS as int, dist_sq(ext[k], ext[k + 1]), lo, hi);
    }
}

/// Raising the density, with the control points unchanged, never shortens the
/// resampled polyline.
pub proof fn resample_length_grows_with_density(pts: Seq<Point2>, lo: Density, hi: Density)
    requires
        lo.is_valid(),
        hi.is_valid(),
        lo.at_most(hi),
    ensures
        resample_spec(pts, lo).len() <= resample_spec(pts, hi).len(),
{
    if pts.len() > 0 {
        lemma_samples_through_density(extended(pts), pts.len() - 1, lo, hi);
    }
}

/// Every window of four consecutive points takes between `MIN_SEGMENTS` and
/// `MAX_SEGMENTS` samples, so a path of `n` points resamples to between
/// `MIN_SEGMENTS * (n - 1) + 1` and `MAX_SEGMENTS * (n - 1) + 1` points, never fewer than `n`.
pub proof fn resample_window_counts_bounded(pts: Seq<Point2>, density: Density)
    requires
        pts.len() >= 1,
    ensures
        forall|w: int|
            0 <= w < pts.len() - 1 ==> MIN_SEGMENTS <= #[trigger] window_samples(
                extended(pts),
                w,
                density,
            ).len() <= MAX_SEGMENTS,
        MIN_SEGMENTS * (pts.len() - 1) + 1 <= resample_spec(pts, density).len(),
        resample_spec(pts, density).len() <= MAX_SEGMENTS * (pts.len() - 1) + 1,
        pts.len() <= resample_spec(pts, density).len(),
{
    assert forall|w: int| 0 <= w < pts.len() - 1 implies MIN_SEGMENTS <= #[trigger] window_samples(
        extended(pts),
        w,
        density,
    ).len() <= MAX_SEGMENTS by {
        lemma_window_len(extended(pts), w, density);
    }
    lemma_samples_through_len(extended(pts), pts.len() - 1, density);
}

proof fn lemma_cr_coord_bound(c0: int, c1: int, c2: int, c3: int, i: int, n: int)
    requires
        abs(c0) <= CONTROL_LIMIT,
        abs(c1) <= CONTROL_LIMIT,
        abs(c2) <= CONTROL_LIMIT,
        abs(c3) <= CONTROL_LIMIT,
        0 <= i < n,
    ensures
        abs(cr_coord(c0, c1, c2, c3, i, n)) <= 12 * CONTROL_LIMIT,
{
    let m = CONTROL_LIMIT as int;
    let n2 = n * n;
    let n3 = n * n * n;
    assert(n2 >= 1 && n3 >= 1) by (nonlinear_arith)
        requires
            n >= 1,
            n2 == n * n,
            n3 == n * n * n,
    ;
    lemma_mul_bound(i, i, n, n);
    lemma_mul_bound(i * i, i, n2, n);
    lemma_mul_bound(2 * c1, n3, 2 * m, n3);
    lemma_mul_bound(c2 - c0, i, 2 * m, n);
    lemma_mul_bound((c2 - c0) * i, n2, 2 * m * n, n2);
    lemma_mul_bound(2 * c0 - 5 * c1 + 4 * c2 - c3, i * i, 12 * m, n2);
    lemma_mul_bound((2 * c0 - 5 * c1 + 4 * c2 - c3) * (i * i), n, 12 * m * n2, n);
    lemma_mul_bound(3 * c1 - c0 - 3 * c2 + c3, i * i * i, 8 * m, n3);
    assert((2 * m * n) * n2 == 2 * m * n3 && (12 * m * n2) * n == 12 * m * n3 && n2 * n == n3)
        by (nonlinear_arith)
        requires
            n2 == n * n,
            n3 == n * n * n,
    ;
    assert(abs(cr_numerator(c0, c1, c2, c3, i, n)) <= 12 * m * (2 * n3));
    lemma_div_round_bound(cr_numerator(c0, c1, c2, c3, i, n), 2 * n3, 12 * m);
}

proof fn lemma_samples_through_within(ext: Seq<Point2>, k: int, density: Density)
    requires
        0 <= k,
        k + 3 <= ext.len(),
        all_within(ext, CONTROL_LIMIT as int),
    ensures
        all_within(samples_through(ext, k, density), 12 * CONTROL_LIMIT),
    decreases k,
{
    if k > 0 {
        lemma_samples_through_within(ext, k - 1, density);
        let w = k - 1;
        let n = segment_count_of(dist_sq(ext[w + 1], ext[w + 2]), density);
        let win = window_samples(ext, w, density);
        lemma_window_len(ext, w, density);
        assert(ext[w].within(CONTROL_LIMIT as int) && ext[w + 1].within(CONTROL_LIMIT as int));
        assert(ext[w + 2].within(CONTROL_LIMIT as int) && ext[w + 3].within(CONTROL_LIMIT as int));
        assert forall|i: int| 0 <= i < win.len() implies (#[trigger] win[i]).within(
            12 * CONTROL_LIMIT,
        ) by {
            lemma_cr_coord_bound(
                ext[w].x as int,
                ext[w + 1].x as int,
                ext[w + 2].x as int,
                ext[w + 3].x as int,
                i,
                n,
            );
            lemma_cr_coord_bound(
                ext[w].y as int,
                ext[w + 1].y as int,
                ext[w + 2].y as int,
                ext[w + 3].y as int,
                i,
                n,
            );
        }
        let prev = samples_through(ext, w, density);
        assert forall|j: int| 0 <= j < prev.len() + win.len() implies (#[trigger] (prev
            + win)[j]).within(12 * CONTROL_LIMIT) by {
            if j >= prev.len() {
                assert((prev + win)[j] == win[j - prev.len()]);
            }
        }
    }
}

/// Every resampled point lies within twelve times `CONTROL_LIMIT` on both axes,
/// which is inside `COORD_LIMIT`: a resampled polyline is never out of range for
/// `stroke`.
pub proof fn resample_stays_in_range(pts: Seq<Point2>, density: Density)
    requires
        all_within(pts, CONTROL_LIMIT as int),
    ensures
        all_within(resample_spec(pts, density), 12 * CONTROL_LIMIT),
        all_within(resample_spec(pts, density), COORD_LIMIT as int),
{
    if pts.len() > 0 {
        let ext = extended(pts);
        assert(all_within(ext, CONTROL_LIMIT as int)) by {
            assert forall|k: int| 0 <= k < ext.len() implies (#[trigger] ext[k]).within(
                CONTROL_LIMIT as int,
            ) by {
                if 1 <= k < ext.len() - 1 {
                    assert(ext[k] == pts[k - 1]);
                }
            }
        }
        lemma_samples_through_within(ext, pts.len() - 1, density);
        let out = resample_spec(pts, density);
        assert(pts[pts.len() - 1].within(CONTROL_LIMIT as int));
        assert forall|j: int| 0 <= j < out.len() implies (#[trigger] out[j]).within(
            12 * CONTROL_LIMIT,
        ) by {
            if j < out.len() - 1 {
                assert(out[j] == samples_through(ext, pts.len() - 1, density)[j]);
            }
        }
    }
    assert forall|j: int| 0 <= j < resample_spec(pts, density).len() implies (
    #[trigger] resample_spec(pts, density)[j]).within(COORD_LIMIT as int) by {
        assert(resample_spec(pts, density)[j].within(12 * CONTROL_LIMIT));
    }
}

} // verus!
