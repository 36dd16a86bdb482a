use granite::arith::{isqrt, round_div};
use granite::geometry::{GeometryError, Point2};
use granite::spline::{
    catmull_rom, resample, segment_count, Density, CONTROL_LIMIT, MAX_SEGMENTS, MIN_SEGMENTS,
};

fn p(x: i64, y: i64) -> Point2 {
    Point2::new(x, y)
}

fn demo_path() -> Vec<Point2> {
    // The demo's control points, in units of 1/256 pixel.
    vec![
        p(100 * 256, 100 * 256),
        p(1000 * 256, 400 * 256),
        p(300 * 256, 800 * 256),
        p(900 * 256, 1100 * 256),
    ]
}

#[test]
fn two_points_at_density_twenty_give_thirty_three() {
    let out = resample(&vec![p(0, 0), p(10, 0)], Density::new(20, 1)).unwrap();
    assert_eq!(out.len(), 33);
    assert_eq!(out[0], p(0, 0));
    assert_eq!(out[32], p(10, 0));
    // Halfway along the only window.
    assert_eq!(out[16], p(5, 0));
    assert_eq!(&out[..6], &[p(0, 0), p(0, 0), p(0, 0), p(1, 0), p(1, 0), p(1, 0)]);
}

#[test]
fn resample_keeps_first_and_last_points() {
    let pts = demo_path();
    let out = resample(&pts, Density::new(20, 256)).unwrap();
    assert_eq!(out[0], pts[0]);
    assert_eq!(*out.last().unwrap(), pts[3]);
}

#[test]
fn resample_length_never_shrinks_with_density() {
    let pts = demo_path();
    let densities = [
        Density::new(1, 25600),
        Density::new(1, 2560),
        Density::new(1, 256),
        Density::new(20, 256),
    ];
    let lens: Vec<usize> = densities.iter().map(|d| resample(&pts, *d).unwrap().len()).collect();
    assert_eq!(lens, vec![27, 97, 97, 97]);
    for w in lens.windows(2) {
        assert!(w[0] <= w[1]);
    }
}

#[test]
fn resample_length_is_within_window_bounds() {
    let pts = demo_path();
    for d in [Density::new(1, 100000), Density::new(1, 300), Density::new(7, 1)] {
        let n = resample(&pts, d).unwrap().len();
        assert!(n >= MIN_SEGMENTS * 3 + 1);
        assert!(n <= MAX_SEGMENTS * 3 + 1);
    }
}

#[test]
fn segment_count_is_clamped_ceiling() {
    let d = Density::new(1, 1);
    assert_eq!(segment_count(p(0, 0), p(1, 0), d), 4);
    assert_eq!(segment_count(p(0, 0), p(3, 4), d), 5);
    assert_eq!(segment_count(p(0, 0), p(6, 8), d), 10);
    assert_eq!(segment_count(p(0, 0), p(30, 40), d), 32);
    assert_eq!(segment_count(p(0, 0), p(0, 0), d), 4);
    assert_eq!(segment_count(p(0, 0), p(10, 0), Density::new(20, 1)), 32);
    // 10 units at 1 sample per 3 units: ceil(3.33) = 4; at 2 per 3: ceil(6.67) = 7.
    assert_eq!(segment_count(p(0, 0), p(10, 0), Density::new(1, 3)), 4);
    assert_eq!(segment_count(p(0, 0), p(10, 0), Density::new(2, 3)), 7);
}

#[test]
fn catmull_rom_hits_its_ends_and_midpoint() {
    let a = p(0, 0);
    let b = p(10, 0);
    assert_eq!(catmull_rom(a, a, b, b, 0, 32), a);
    assert_eq!(catmull_rom(a, a, b, b, 16, 32), p(5, 0));
    // t = 1/2 on a curve bending through (0,0), (10,0), (10,10), (0,10).
    assert_eq!(catmull_rom(p(0, 0), p(10, 0), p(10, 10), p(0, 10), 2, 4), p(11, 5));
}

#[test]
fn resample_three_points_exact() {
    let out = resample(&vec![p(0, 0), p(10, 0), p(10, 10)], Density::new(1, 1)).unwrap();
    let expected = vec![
        p(0, 0), p(1, 0), p(2, 0), p(3, 0), p(4, 0), p(5, -1), p(6, -1), p(7, -1), p(8, -1),
        p(9, 0), p(10, 0), p(10, 1), p(11, 2), p(11, 3), p(11, 4), p(11, 5), p(10, 6), p(10, 7),
        p(10, 8), p(10, 9), p(10, 10),
    ];
    assert_eq!(out, expected);
}

#[test]
fn resample_empty_and_single() {
    assert_eq!(resample(&vec![], Density::new(1, 1)), Ok(vec![]));
    assert_eq!(resample(&vec![p(3, -4)], Density::new(1, 1)), Ok(vec![p(3, -4)]));
}

#[test]
fn resample_rejects_zero_density() {
    let pts = vec![p(0, 0), p(10, 0)];
    assert_eq!(resample(&pts, Density::new(0, 1)), Err(GeometryError::InvalidDensity));
    assert_eq!(resample(&pts, Density::new(1, 0)), Err(GeometryError::InvalidDensity));
}

#[test]
fn resample_rejects_far_points() {
    let pts = vec![p(0, 0), p(CONTROL_LIMIT + 1, 0)];
    assert_eq!(resample(&pts, Density::new(1, 1)), Err(GeometryError::OutOfRange));
    let edge = vec![p(-CONTROL_LIMIT, CONTROL_LIMIT), p(CONTROL_LIMIT, -CONTROL_LIMIT)];
    let out = resample(&edge, Density::new(1, 1)).unwrap();
    assert_eq!(out.len(), 33);
    assert_eq!(out[0], edge[0]);
    assert_eq!(out[32], edge[1]);
}

#[test]
fn integer_square_root() {
    assert_eq!(isqrt(0), 0);
    assert_eq!(isqrt(1), 1);
    assert_eq!(isqrt(15), 3);
    assert_eq!(isqrt(16), 4);
    assert_eq!(isqrt(u128::MAX), u64::MAX as u128);
    assert_eq!(isqrt(2 << 60), 1518500249);
}

#[test]
fn rounded_division() {
    assert_eq!(round_div(7, 2), 4);
    assert_eq!(round_div(-7, 2), -4);
    assert_eq!(round_div(5, 3), 2);
    assert_eq!(round_div(-4, 3), -1);
    assert_eq!(round_div(0, 9), 0);
}
