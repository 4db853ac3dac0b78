use image_debug_utils::contours::{
    remove_hypotenuse_in_place, sort_by_direct_children_count_owned, sort_by_perimeters_owned,
    BorderType, Contour,
};
use image_debug_utils::point::Point;

fn assert_float_eq(a: f64, b: f64) {
    assert!(
        (a - b).abs() < 1e-9,
        "Assertion failed: expected {}, got {}",
        b,
        a
    );
}

fn make_contour(parent: Option<usize>, points: Vec<Point>) -> Contour {
    Contour {
        points,
        parent,
        border_type: BorderType::Hole,
    }
}

fn make_simple_contour(parent: Option<usize>) -> Contour {
    make_contour(parent, Vec::new())
}

#[test]
fn test_filter_contours() {
    // A "good" contour with a 1:1 aspect ratio.
    let good_contour = Contour {
        points: vec![
            Point::new(10, 10),
            Point::new(20, 10),
            Point::new(20, 20),
            Point::new(10, 20),
        ],
        border_type: BorderType::Outer,
        parent: None,
    };

    // A "bad" contour with a high 10:1 aspect ratio.
    let bad_contour_high_ratio = Contour {
        points: vec![
            Point::new(0, 0),
            Point::new(100, 0),
            Point::new(100, 10),
            Point::new(0, 10),
        ],
        border_type: BorderType::Outer,
        parent: None,
    };

    // A contour with a different border type (Hole).
    let hole_contour = Contour {
        points: vec![
            Point::new(30, 30),
            Point::new(40, 30),
            Point::new(40, 40),
            Point::new(30, 40),
        ],
        border_type: BorderType::Hole,
        parent: Some(0),
    };

    // A degenerate contour with too few points.
    let degenerate_contour = Contour {
        points: vec![Point::new(0, 0), Point::new(1, 1)],
        border_type: BorderType::Outer,
        parent: None,
    };

    // --- Test Case 1: Filter by aspect ratio only ---
    let mut contours1 = vec![
        good_contour.clone(),
        bad_contour_high_ratio.clone(),
        degenerate_contour.clone(),
    ];
    remove_hypotenuse_in_place(&mut contours1, 5.0f32.to_bits(), None);
    assert_eq!(contours1.len(), 1);
    assert_eq!(contours1[0].points, good_contour.points);

    // --- Test Case 2: Filter by BorderType only (using a high aspect ratio threshold) ---
    let mut contours2 = vec![
        good_contour.clone(),
        bad_contour_high_ratio.clone(),
        hole_contour.clone(),
    ];
    remove_hypotenuse_in_place(&mut contours2, 100.0f32.to_bits(), Some(BorderType::Outer));
    assert_eq!(contours2.len(), 2, "Should keep both 'Outer' contours");
    // Check that the hole contour is removed.
    assert!(!contours2.iter().any(|c| c.border_type == BorderType::Hole));

    // --- Test Case 3: Filter by both aspect ratio and BorderType ---
    let mut contours3 = vec![
        good_contour.clone(),
        bad_contour_high_ratio.clone(),
        hole_contour.clone(),
    ];
    remove_hypotenuse_in_place(&mut contours3, 5.0f32.to_bits(), Some(BorderType::Outer));
    assert_eq!(
        contours3.len(),
        1,
        "Should keep only the 'good' outer contour"
    );
    assert_eq!(contours3[0].points, good_contour.points);

    // --- Test Case 4: No contours removed ---
    let mut contours4 = vec![good_contour.clone(), hole_contour.clone()];
    remove_hypotenuse_in_place(&mut contours4, 10.0f32.to_bits(), None);
    assert_eq!(contours4.len(), 2, "Should not remove any contours");

    // --- Test Case 5: Filter everything out ---
    let mut contours5 = vec![bad_contour_high_ratio.clone()];
    remove_hypotenuse_in_place(&mut contours5, 5.0f32.to_bits(), None);
    assert!(
        contours5.is_empty(),
        "Should filter out the high-ratio contour"
    );
}

#[test]
fn test_owned_nested_hierarchy_for_direct_children() {
    // Hierarchy:
    // 0 -> 1      (1 direct child)
    // 1 -> 2      (1 direct child)
    // 3 -> 4, 5   (2 direct children)
    let contours = vec![
        make_contour(None, vec![Point::new(1, 1)]), // 0, give unique points
        make_contour(Some(0), vec![Point::new(2, 2)]), // 1
        make_simple_contour(Some(1)),               // 2
        make_contour(None, vec![Point::new(10, 10)]), // 3
        make_simple_contour(Some(3)),               // 4
        make_simple_contour(Some(3)),               // 5
    ];
    let contours_clone = contours.clone();

    let result = sort_by_direct_children_count_owned(contours);

    assert_eq!(result.len(), 6);

    // First element must be contour 3 with 2 children.
    assert_eq!(result[0].0.points, contours_clone[3].points);
    assert_eq!(result[0].1, 2);

    // The next two elements must have 1 child each.
    assert_eq!(result[1].1, 1);
    assert_eq!(result[2].1, 1);
    let one_child_contours_points: Vec<_> = result[1..3].iter().map(|(c, _)| &c.points).collect();
    assert!(one_child_contours_points.contains(&&contours_clone[0].points));
    assert!(one_child_contours_points.contains(&&contours_clone[1].points));

    // The remaining must have 0 children.
    assert!(result[3..].iter().all(|(_, count)| *count == 0));
}

#[test]
fn test_calculate_perimeters_and_sort_comprehensive() {
    // 1. Test with an empty vector
    let empty_contours: Vec<Contour> = vec![];
    let result = sort_by_perimeters_owned(empty_contours);
    assert!(
        result.is_empty(),
        "Should return an empty vec for empty input"
    );

    // 2. Test with a mix of contours, including edge cases
    let square = Contour {
        // Perimeter: 10 + 10 + 10 + 10 = 40.0
        points: vec![
            Point::new(0, 0),
            Point::new(10, 0),
            Point::new(10, 10),
            Point::new(0, 10),
        ],
        border_type: BorderType::Outer,
        parent: None,
    };
    let line = Contour {
        // Perimeter: 10 (forward) + 10 (back) = 20.0
        points: vec![Point::new(0, 0), Point::new(10, 0)],
        border_type: BorderType::Outer,
        parent: None,
    };
    let triangle = Contour {
        // Perimeter: 3 + 4 + 5 = 12.0
        points: vec![Point::new(0, 0), Point::new(3, 0), Point::new(0, 4)],
        border_type: BorderType::Outer,
        parent: None,
    };
    let single_point = Contour {
        // Perimeter: 0.0
        points: vec![Point::new(100, 100)],
        border_type: BorderType::Hole,
        parent: Some(0),
    };
    let empty_points = Contour {
        // Perimeter: 0.0
        points: vec![],
        border_type: BorderType::Outer,
        parent: None,
    };

    let contours = vec![triangle, single_point, square, empty_points, line];
    let result = sort_by_perimeters_owned(contours);

    // 3. Verify the results
    assert_eq!(result.len(), 5, "Should return results for all 5 contours");

    // Check order and values
    // [0]: Square (40.0)
    assert_eq!(result[0].0.points.len(), 4);
    assert_float_eq(f64::from_bits(result[0].1), 40.0);

    // [1]: Line (20.0)
    assert_eq!(result[1].0.points.len(), 2);
    assert_float_eq(f64::from_bits(result[1].1), 20.0);

    // [2]: Triangle (12.0)
    assert_eq!(result[2].0.points.len(), 3);
    assert_float_eq(f64::from_bits(result[2].1), 12.0);

    // [3] & [4]: Single Point (0.0) and Empty Points (0.0).
    // Their relative order is not guaranteed due to unstable sort,
    // so we just check that the last two perimeters are 0.0.
    assert_float_eq(f64::from_bits(result[3].1), 0.0);
    assert_float_eq(f64::from_bits(result[4].1), 0.0);
    let last_two_point_counts: Vec<usize> =
        result.iter().skip(3).map(|c| c.0.points.len()).collect();
    assert!(last_two_point_counts.contains(&0));
    assert!(last_two_point_counts.contains(&1));
}
