use granite::geometry::{GeometryError, Point2};
use granite::spline::{resample, Density};
use granite::stroke::{miters, segment_normal, segment_normals, stroke, Miter, COORD_LIMIT, UNIT};

fn p(x: i64, y: i64) -> Point2 {
    Point2::new(x, y)
}

#[test]
fn corner_stroke_has_twelve_vertices_and_corrected_joint() {
    let pts = vec![p(0, 0), p(10, 0), p(10, 10)];
    let out = stroke(&pts, 2).unwrap();
    assert_eq!(out.len(), 12);
    let normals = segment_normals(&pts).unwrap();
    assert_eq!(normals, vec![p(0, UNIT), p(-UNIT, 0)]);
    let ms = miters(&pts, 2).unwrap();
    assert_eq!(ms[1].dir, p(-23170, 23170));
    assert_eq!(ms[1].length, 46342);
    let dir_x = ms[1].dir.x as f64 / UNIT as f64;
    let dir_y = ms[1].dir.y as f64 / UNIT as f64;
    assert!((dir_x + 0.707).abs() < 1e-3 && (dir_y - 0.707).abs() < 1e-3);
    let length = ms[1].length as f64 / UNIT as f64;
    assert!((length - 1.414).abs() < 1e-3);
    let expected = vec![
        p(0, 1), p(9, 1), p(11, -1), p(11, -1), p(0, -1), p(0, 1),
        p(9, 1), p(9, 10), p(11, 10), p(11, 10), p(11, -1), p(9, 1),
    ];
    assert_eq!(out, expected);
}

#[test]
fn corner_stroke_in_subpixel_units() {
    let pts = vec![p(0, 0), p(2560, 0), p(2560, 2560)];
    let ms = miters(&pts, 512).unwrap();
    assert_eq!(ms[1].length, 11863526);
    let out = stroke(&pts, 512).unwrap();
    let expected = vec![
        p(0, 256), p(2304, 256), p(2816, -256), p(2816, -256), p(0, -256), p(0, 256),
        p(2304, 256), p(2304, 2560), p(2816, 2560), p(2816, 2560), p(2816, -256), p(2304, 256),
    ];
    assert_eq!(out, expected);
}

#[test]
fn stroke_has_six_vertices_per_segment() {
    for n in 2..12i64 {
        let pts: Vec<Point2> = (0..n).map(|i| p(i * 7, (i % 2) * 5)).collect();
        assert_eq!(stroke(&pts, 3).unwrap().len(), 6 * (n as usize - 1));
    }
}

#[test]
fn stroke_ends_use_plain_normals() {
    let pts = vec![p(0, 0), p(10, 0), p(10, 10), p(20, 15)];
    let normals = segment_normals(&pts).unwrap();
    let ms = miters(&pts, 6).unwrap();
    let half = 6 * (UNIT as u128) / 2;
    assert_eq!(ms[0], Miter { dir: normals[0], length: half });
    assert_eq!(ms[3], Miter { dir: normals[2], length: half });
    let out = stroke(&pts, 6).unwrap();
    assert_eq!(out[0], p(0, 3));
    assert_eq!(out[4], p(0, -3));
    // The last pair sits at (20, 15), offset by 3 along the normal of the last segment.
    assert_eq!(out[13], p(19, 18));
    assert_eq!(out[14], p(21, 12));
}

#[test]
fn straight_stroke_needs_no_correction() {
    let pts = vec![p(0, 0), p(3, 4), p(6, 8), p(9, 12)];
    let ms = miters(&pts, 10).unwrap();
    for m in &ms {
        assert_eq!(*m, Miter { dir: p(-26214, 19661), length: 5 * UNIT as u128 });
    }
    let out = stroke(&pts, 10).unwrap();
    assert_eq!(&out[..6], &[p(-4, 3), p(-1, 7), p(7, 1), p(7, 1), p(4, -3), p(-4, 3)]);
    assert_eq!(out[13], p(5, 15));
}

#[test]
fn segment_normal_turns_counterclockwise() {
    assert_eq!(segment_normal(p(0, 0), p(5, 0)), p(0, UNIT));
    assert_eq!(segment_normal(p(0, 0), p(0, 5)), p(-UNIT, 0));
    assert_eq!(segment_normal(p(0, 0), p(3, 4)), p(-26214, 19661));
}

#[test]
fn stroke_rejects_too_few_points() {
    assert_eq!(stroke(&vec![], 2), Err(GeometryError::TooFewPoints));
    assert_eq!(stroke(&vec![p(1, 1)], 2), Err(GeometryError::TooFewPoints));
    assert_eq!(segment_normals(&vec![p(1, 1)]), Err(GeometryError::TooFewPoints));
}

#[test]
fn stroke_rejects_zero_thickness() {
    assert_eq!(stroke(&vec![p(0, 0), p(1, 0)], 0), Err(GeometryError::InvalidThickness));
}

#[test]
fn stroke_rejects_far_points() {
    let pts = vec![p(0, 0), p(0, COORD_LIMIT + 1)];
    assert_eq!(stroke(&pts, 2), Err(GeometryError::OutOfRange));
    let edge = vec![p(-COORD_LIMIT, -COORD_LIMIT), p(COORD_LIMIT, COORD_LIMIT)];
    assert_eq!(stroke(&edge, u32::MAX).unwrap().len(), 6);
}

#[test]
fn stroke_rejects_repeated_points() {
    let pts = vec![p(0, 0), p(5, 5), p(5, 5), p(9, 0)];
    assert_eq!(stroke(&pts, 2), Err(GeometryError::RepeatedPoint));
}

#[test]
fn stroke_rejects_fold_back() {
    let pts = vec![p(0, 0), p(10, 0), p(0, 0)];
    assert_eq!(stroke(&pts, 2), Err(GeometryError::FoldBack));
    assert_eq!(miters(&pts, 2), Err(GeometryError::FoldBack));
}

#[test]
fn resampled_curve_strokes() {
    let pts = vec![p(100 * 256, 100 * 256), p(1000 * 256, 400 * 256), p(300 * 256, 800 * 256)];
    let line = resample(&pts, Density::new(20, 256)).unwrap();
    let out = stroke(&line, 40 * 256).unwrap();
    assert_eq!(out.len(), 6 * (line.len() - 1));
}
