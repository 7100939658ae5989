use claar::colorers::UvColorer;
use claar::primatives::{Extreme, Point, Triangle, ROTATION_ONE};
use claar::RasterError;

fn plain(a: Point, b: Point, c: Point) -> Triangle<UvColorer> {
    Triangle::<UvColorer>::new((a, None), (b, None), (c, None), None).unwrap()
}

#[test]
fn interior_point_has_positive_weights() {
    let t = plain(Point::new(0, 0), Point::new(6, 0), Point::new(0, 6));
    let w = t.calc_weights(&Point::new(1, 2)).unwrap();
    assert!(w.w0 > 0 && w.w1 > 0 && w.w2 > 0);
    assert_eq!(w.w0 + w.w1 + w.w2, w.denom);
    assert_eq!((w.w0, w.w1, w.w2, w.denom), (18, 6, 12, 36));
}

#[test]
fn interior_point_of_clockwise_triangle_has_positive_weights() {
    let t = plain(Point::new(0, 0), Point::new(0, 6), Point::new(6, 0));
    let w = t.calc_weights(&Point::new(2, 2)).unwrap();
    assert!(w.denom > 0);
    assert!(w.w0 > 0 && w.w1 > 0 && w.w2 > 0);
    assert_eq!(w.w0 + w.w1 + w.w2, w.denom);
}

#[test]
fn vertex_has_unit_weight() {
    let t = plain(Point::new(1, 1), Point::new(9, 2), Point::new(3, 7));
    let w = t.calc_weights(&Point::new(1, 1)).unwrap();
    assert_eq!((w.w0, w.w1, w.w2), (w.denom, 0, 0));
    let w = t.calc_weights(&Point::new(9, 2)).unwrap();
    assert_eq!((w.w0, w.w1, w.w2), (0, w.denom, 0));
    let w = t.calc_weights(&Point::new(3, 7)).unwrap();
    assert_eq!((w.w0, w.w1, w.w2), (0, 0, w.denom));
}

#[test]
fn outside_point_has_a_negative_weight() {
    let t = plain(Point::new(0, 0), Point::new(4, 0), Point::new(0, 4));
    let w = t.calc_weights(&Point::new(5, 5)).unwrap();
    assert!(w.w0 < 0);
    assert_eq!(w.w0 + w.w1 + w.w2, w.denom);
}

#[test]
fn collinear_weights_are_degenerate() {
    let t = plain(Point::new(0, 0), Point::new(2, 2), Point::new(4, 4));
    assert_eq!(t.calc_weights(&Point::new(1, 1)), Err(RasterError::DegenerateTriangle));
}

#[test]
fn extremes_record_ties() {
    let t = plain(Point::new(0, 0), Point::new(4, 0), Point::new(0, 4));
    assert_eq!(t.lowest_x(), Extreme { index: 0, tie: Some(2) });
    assert_eq!(t.highest_x(), Extreme { index: 1, tie: None });
    assert_eq!(t.lowest_y(), Extreme { index: 0, tie: Some(1) });
    assert_eq!(t.highest_y(), Extreme { index: 2, tie: None });
    assert_eq!((t.width(), t.height()), (4, 4));
}

#[test]
fn all_vertices_tied() {
    let t = plain(Point::new(3, 3), Point::new(3, 3), Point::new(3, 3));
    assert_eq!(t.lowest_x(), Extreme { index: 0, tie: Some(2) });
    assert_eq!(t.highest_y(), Extreme { index: 0, tie: Some(2) });
    assert_eq!((t.width(), t.height()), (0, 0));
}

#[test]
fn set_point_recomputes_extremes() {
    let mut t = plain(Point::new(0, 0), Point::new(4, 0), Point::new(0, 4));
    t.set_point(1, Point::new(7, 2));
    assert_eq!(t.get_point(1), Point::new(7, 2));
    assert_eq!(t.lowest_x(), Extreme { index: 0, tie: Some(2) });
    assert_eq!(t.highest_x(), Extreme { index: 1, tie: None });
    assert_eq!(t.lowest_y(), Extreme { index: 0, tie: None });
    assert_eq!(t.highest_y(), Extreme { index: 2, tie: None });
    assert_eq!((t.width(), t.height()), (7, 4));
    t.set_point(0, Point::new(-3, 9));
    assert_eq!(t.lowest_x(), Extreme { index: 0, tie: None });
    assert_eq!(t.highest_y(), Extreme { index: 0, tie: None });
    assert_eq!(t.lowest_y(), Extreme { index: 1, tie: None });
    assert_eq!((t.width(), t.height()), (10, 7));
}

#[test]
fn recomputing_extremes_twice_changes_nothing() {
    let mut t = plain(Point::new(2, 5), Point::new(8, 1), Point::new(8, 9));
    let before = (t.lowest_x(), t.highest_x(), t.lowest_y(), t.highest_y(), t.width(), t.height());
    t.set_point(2, Point::new(8, 9));
    t.set_point(2, Point::new(8, 9));
    let after = (t.lowest_x(), t.highest_x(), t.lowest_y(), t.highest_y(), t.width(), t.height());
    assert_eq!(before, after);
    assert_eq!(t.highest_x(), Extreme { index: 1, tie: Some(2) });
    assert_eq!((t.width(), t.height()), (6, 8));
}

#[test]
fn mismatched_attribute_lengths_are_refused() {
    let r = Triangle::<UvColorer>::new(
        (Point::new(0, 0), Some(vec![1, 2])),
        (Point::new(4, 0), Some(vec![1])),
        (Point::new(0, 4), Some(vec![3, 4])),
        None,
    );
    assert_eq!(r.err(), Some(RasterError::MismatchedAttributeLength));
}

#[test]
fn partly_given_attributes_are_refused() {
    let r = Triangle::<UvColorer>::new(
        (Point::new(0, 0), Some(vec![1])),
        (Point::new(4, 0), None),
        (Point::new(0, 4), None),
        None,
    );
    assert_eq!(r.err(), Some(RasterError::MismatchedAttributeLength));
}

#[test]
fn interpolation_weights_attributes() {
    let t = Triangle::<UvColorer>::new(
        (Point::new(0, 0), Some(vec![100, -8])),
        (Point::new(4, 0), Some(vec![200, 8])),
        (Point::new(0, 4), Some(vec![0, 0])),
        None,
    )
    .unwrap();
    let w = t.calc_weights(&Point::new(1, 1)).unwrap();
    assert_eq!((w.w0, w.w1, w.w2, w.denom), (8, 4, 4, 16));
    assert_eq!(t.interpolate(&w), vec![100, -2]);
    let w = t.calc_weights(&Point::new(1, 0)).unwrap();
    assert_eq!(t.interpolate(&w), vec![125, -4]);
}

#[test]
fn interpolation_rounds_down() {
    let t = Triangle::<UvColorer>::new(
        (Point::new(0, 0), Some(vec![1])),
        (Point::new(3, 0), Some(vec![0])),
        (Point::new(0, 3), Some(vec![0])),
        None,
    )
    .unwrap();
    let w = t.calc_weights(&Point::new(2, 0)).unwrap();
    assert_eq!(t.interpolate(&w), vec![0]);
    let w = t.calc_weights(&Point::new(4, 0)).unwrap();
    assert_eq!(t.interpolate(&w), vec![-1]);
}

#[test]
fn above_line_uses_point_slope_form() {
    let a = Point::new(0, 0);
    let b = Point::new(4, 4);
    assert!(Point::new(1, 5).is_above_line(&a, &b));
    assert!(!Point::new(3, 1).is_above_line(&a, &b));
    assert!(!Point::new(2, 2).is_above_line(&a, &b));
    assert!(Point::new(1, 5).is_above_line(&b, &a));
}

#[test]
fn nothing_is_above_a_vertical_line() {
    let a = Point::new(2, 0);
    let b = Point::new(2, 5);
    assert!(!Point::new(0, 100).is_above_line(&a, &b));
    assert!(!Point::new(9, 100).is_above_line(&a, &b));
}

#[test]
fn rotation_by_quarter_turn() {
    let p = Point::new(10, 0);
    let r = p.rotate_point(&Point::new(0, 0), 0, ROTATION_ONE);
    assert_eq!(r, Point::new(0, 10));
    let r = Point::new(0, 10).rotate_point(&Point::new(0, 0), 0, ROTATION_ONE);
    assert_eq!(r, Point::new(-10, 0));
}

#[test]
fn rotation_about_a_pivot() {
    let r = Point::new(10, 0).rotate_point(&Point::new(5, 5), 46341, 46341);
    assert_eq!(r, Point::new(12, 5));
}

#[test]
fn rotation_rounds_down() {
    let r = Point::new(1, 0).rotate_point(&Point::new(0, 0), 0, -1);
    assert_eq!(r, Point::new(0, -1));
}

#[test]
fn rotation_stays_within_a_sub_pixel_unit() {
    let p = Point::new(16, 0);
    let o = Point::new(0, 0);
    let q = p.rotate_point(&o, 46341, 46341);
    assert_eq!(q, Point::new(11, 11));
    let back = q.rotate_point(&o, 46341, -46341);
    assert!((back.x - p.x).abs() <= 1 && (back.y - p.y).abs() <= 1);
}

#[test]
fn rotation_round_trip_restores_the_point() {
    let o = Point::new(160, 96);
    for (x, y) in [(400, 96), (0, 0), (-37, 250), (161, 97)] {
        let p = Point::new(x, y);
        let q = p.rotate_point(&o, 57344, 31716);
        let back = q.rotate_point(&o, 57344, -31716);
        assert!((back.x - p.x).abs() <= 2 && (back.y - p.y).abs() <= 2, "{:?} -> {:?}", p, back);
    }
}

#[test]
fn update_tri_twice_is_idempotent() {
    let mut t = plain(Point::new(2, 5), Point::new(8, 1), Point::new(8, 9));
    t.update_tri();
    let once = (t.lowest_x(), t.highest_x(), t.lowest_y(), t.highest_y(), t.width(), t.height());
    t.update_tri();
    let twice = (t.lowest_x(), t.highest_x(), t.lowest_y(), t.highest_y(), t.width(), t.height());
    assert_eq!(once, twice);
}

#[test]
fn point_arithmetic() {
    let a = Point::new(3, -4);
    let b = Point::new(10, 7);
    assert_eq!(a.add(b), Point::new(13, 3));
    assert_eq!(a.sub(b), Point::new(-7, -11));
}
