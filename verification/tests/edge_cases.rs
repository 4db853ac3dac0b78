use image_debug_utils::contours::{
    remove_hypotenuse_in_place, sort_by_direct_children_count_owned, sort_by_perimeters_owned,
    BorderType, Contour,
};
use image_debug_utils::point::Point;
use image_debug_utils::ratio::is_positive_finite_f32_bits;

fn outer(points: Vec<Point>) -> Contour {
    Contour {
        points,
        border_type: BorderType::Outer,
        parent: None,
    }
}

fn rect_points(x: i32, y: i32, w: i32, h: i32) -> Vec<Point> {
    vec![
        Point::new(x, y),
        Point::new(x + w, y),
        Point::new(x + w, y + h),
        Point::new(x, y + h),
    ]
}

#[test]
fn ten_to_one_rectangle_kept_at_higher_threshold() {
    // A 10:1 rectangle is removed at threshold 5.0 but kept at 15.0.
    let mut removed = vec![outer(rect_points(0, 0, 100, 10))];
    remove_hypotenuse_in_place(&mut removed, 5.0f32.to_bits(), None);
    assert!(removed.is_empty());

    let mut kept = vec![outer(rect_points(0, 0, 100, 10))];
    remove_hypotenuse_in_place(&mut kept, 15.0f32.to_bits(), None);
    assert_eq!(kept.len(), 1);
}

#[test]
fn boundary_aspect_ratio_is_removed() {
    // A 20x10 rectangle has aspect ratio exactly 2.0: the comparison is
    // strict, so the boundary threshold removes it, while the very next
    // representable single-precision value keeps it.
    let mut at_boundary = vec![outer(rect_points(0, 0, 20, 10))];
    remove_hypotenuse_in_place(&mut at_boundary, 2.0f32.to_bits(), None);
    assert!(at_boundary.is_empty());

    let mut above_boundary = vec![outer(rect_points(0, 0, 20, 10))];
    remove_hypotenuse_in_place(&mut above_boundary, 2.0f32.to_bits() + 1, None);
    assert_eq!(above_boundary.len(), 1);
}

#[test]
fn degenerate_rectangle_always_removed() {
    // Collinear points have a zero-width minimum-area rectangle, which is
    // removed whatever the threshold.
    let collinear = outer(vec![
        Point::new(0, 0),
        Point::new(1, 1),
        Point::new(2, 2),
        Point::new(3, 3),
    ]);
    let mut contours = vec![collinear];
    remove_hypotenuse_in_place(&mut contours, 1.0e9f32.to_bits(), None);
    assert!(contours.is_empty());
}

#[test]
fn too_few_points_always_removed() {
    for n in 0..4usize {
        let mut points = Vec::new();
        for i in 0..n {
            points.push(Point::new(i as i32 * 10, (i as i32 % 2) * 10));
        }
        let mut contours = vec![outer(points)];
        remove_hypotenuse_in_place(&mut contours, 1.0e9f32.to_bits(), None);
        assert!(contours.is_empty(), "{}-point contour must be removed", n);
    }
}

#[test]
fn outer_filter_removes_every_hole() {
    // With a required Outer type, every Hole contour is removed no matter
    // how compact its shape is.
    let mut contours = vec![
        Contour {
            points: rect_points(0, 0, 10, 10),
            border_type: BorderType::Hole,
            parent: None,
        },
        outer(rect_points(20, 0, 10, 10)),
        Contour {
            points: rect_points(40, 0, 30, 30),
            border_type: BorderType::Hole,
            parent: Some(1),
        },
    ];
    remove_hypotenuse_in_place(&mut contours, 100.0f32.to_bits(), Some(BorderType::Outer));
    assert_eq!(contours.len(), 1);
    assert!(contours
        .iter()
        .all(|c| c.border_type == BorderType::Outer));
}

#[test]
fn filter_preserves_survivor_order() {
    let mut contours = vec![
        outer(rect_points(0, 0, 10, 10)),
        outer(rect_points(0, 0, 100, 2)),
        outer(rect_points(5, 5, 12, 10)),
        outer(rect_points(0, 0, 90, 1)),
        outer(rect_points(7, 9, 10, 13)),
    ];
    remove_hypotenuse_in_place(&mut contours, 3.0f32.to_bits(), None);
    assert_eq!(contours.len(), 3);
    assert_eq!(contours[0].points[0], Point::new(0, 0));
    assert_eq!(contours[1].points[0], Point::new(5, 5));
    assert_eq!(contours[2].points[0], Point::new(7, 9));
}

#[test]
fn perimeter_ranking_is_descending() {
    let mut contours = Vec::new();
    for i in 0..20i32 {
        let side = (i * 7) % 13 + 1;
        contours.push(outer(rect_points(0, 0, side, side)));
    }
    let ranked = sort_by_perimeters_owned(contours);
    assert_eq!(ranked.len(), 20);
    for w in 1..ranked.len() {
        assert!(
            f64::from_bits(ranked[w - 1].1) >= f64::from_bits(ranked[w].1),
            "perimeters must descend"
        );
    }
}

#[test]
fn child_count_ranking_is_descending() {
    let mut contours = Vec::new();
    for i in 0..30usize {
        let parent = if i % 3 == 0 { None } else { Some(i % 7) };
        contours.push(Contour {
            points: Vec::new(),
            border_type: BorderType::Hole,
            parent,
        });
    }
    let ranked = sort_by_direct_children_count_owned(contours);
    assert_eq!(ranked.len(), 30);
    for w in 1..ranked.len() {
        assert!(ranked[w - 1].1 >= ranked[w].1, "counts must descend");
    }
}

#[test]
fn out_of_range_parent_links_are_ignored() {
    let contours = vec![
        Contour {
            points: Vec::new(),
            border_type: BorderType::Outer,
            parent: Some(17),
        },
        Contour {
            points: Vec::new(),
            border_type: BorderType::Outer,
            parent: Some(0),
        },
    ];
    let ranked = sort_by_direct_children_count_owned(contours);
    assert_eq!(ranked.len(), 2);
    assert_eq!(ranked[0].1, 1);
    assert_eq!(ranked[1].1, 0);
}

#[test]
fn threshold_validity_matches_float_classification() {
    // The filter's precondition admits exactly the finite positive
    // single-precision thresholds.
    assert!(is_positive_finite_f32_bits(5.0f32.to_bits()));
    assert!(is_positive_finite_f32_bits(f32::MIN_POSITIVE.to_bits()));
    assert!(is_positive_finite_f32_bits(1.0e-40f32.to_bits())); // denormal
    assert!(is_positive_finite_f32_bits(f32::MAX.to_bits()));
    assert!(!is_positive_finite_f32_bits(0.0f32.to_bits()));
    assert!(!is_positive_finite_f32_bits((-0.0f32).to_bits()));
    assert!(!is_positive_finite_f32_bits((-5.0f32).to_bits()));
    assert!(!is_positive_finite_f32_bits(f32::INFINITY.to_bits()));
    assert!(!is_positive_finite_f32_bits(f32::NEG_INFINITY.to_bits()));
    assert!(!is_positive_finite_f32_bits(f32::NAN.to_bits()));
}
