//! Axis-aligned bounding boxes for rotated rectangles.

use vstd::prelude::*;
use crate::point::Point;

verus! {

/// An axis-aligned rectangle with a non-negative origin and extent.
#[derive(Clone, Copy, Debug, PartialEq, Eq, Structural)]
pub struct Rect {
    /// x-coordinate of the left edge.
    pub x: u32,
    /// y-coordinate of the top edge.
    pub y: u32,
    /// Horizontal extent.
    pub width: u32,
    /// Vertical extent.
    pub height: u32,
}

/// The smaller of two integers.
pub open spec fn min2(a: int, b: int) -> int {
    if a <= b {
        a
    } else {
        b
    }
}

/// The larger of two integers.
pub open spec fn max2(a: int, b: int) -> int {
    if a >= b {
        a
    } else {
        b
    }
}

/// The smallest of four integers.
pub open spec fn min4(a: int, b: int, c: int, d: int) -> int {
    min2(min2(min2(a, b), c), d)
}

/// The largest of four integers.
pub open spec fn max4(a: int, b: int, c: int, d: int) -> int {
    max2(max2(max2(a, b), c), d)
}

/// A coordinate truncated to the non-negative range: negative values are
/// clamped to zero, so geometry left of or above the origin loses information.
pub open spec fn clamp_low(v: int) -> int {
    if v < 0 {
        0
    } else {
        v
    }
}

/// The smallest x-coordinate among four vertices.
pub open spec fn low_x(vs: Seq<Point>) -> int {
    min4(vs[0].x as int, vs[1].x as int, vs[2].x as int, vs[3].x as int)
}

/// The largest x-coordinate among four vertices.
pub open spec fn high_x(vs: Seq<Point>) -> int {
    max4(vs[0].x as int, vs[1].x as int, vs[2].x as int, vs[3].x as int)
}

/// The smallest y-coordinate among four vertices.
pub open spec fn low_y(vs: Seq<Point>) -> int {
    min4(vs[0].y as int, vs[1].y as int, vs[2].y as int, vs[3].y as int)
}

/// The largest y-coordinate among four vertices.
pub open spec fn high_y(vs: Seq<Point>) -> int {
    max4(vs[0].y as int, vs[1].y as int, vs[2].y as int, vs[3].y as int)
}

/// Calculates the axis-aligned bounding box of a rotated rectangle's vertices.
///
/// The four vertices are scanned for the extreme x and y coordinates; the
/// extremes are then clamped to the non-negative range, so vertices with
/// negative coordinates are projected onto the axes. The width and height are
/// the differences of the clamped extremes and are therefore never negative.
pub fn to_axis_aligned_bounding_box(vertices: &[Point; 4]) -> (r: Rect)
    ensures
        r.x == clamp_low(low_x(vertices@)),
        r.y == clamp_low(low_y(vertices@)),
        r.width == clamp_low(high_x(vertices@)) - clamp_low(low_x(vertices@)),
        r.height == clamp_low(high_y(vertices@)) - clamp_low(low_y(vertices@)),
{
    let p0 = vertices[0];
    let mut min_x = p0.x;
    let mut max_x = p0.x;
    let mut min_y = p0.y;
    let mut max_y = p0.y;

    let p1 = vertices[1];
    if p1.x < min_x {
        min_x = p1.x;
    }
    if p1.x > max_x {
        max_x = p1.x;
    }
    if p1.y < min_y {
        min_y = p1.y;
    }
    if p1.y > max_y {
        max_y = p1.y;
    }

    let p2 = vertices[2];
    if p2.x < min_x {
        min_x = p2.x;
    }
    if p2.x > max_x {
        max_x = p2.x;
    }
    if p2.y < min_y {
        min_y = p2.y;
    }
    if p2.y > max_y {
        max_y = p2.y;
    }

    let p3 = vertices[3];
    if p3.x < min_x {
        min_x = p3.x;
    }
    if p3.x > max_x {
        max_x = p3.x;
    }
    if p3.y < min_y {
        min_y = p3.y;
    }
    if p3.y > max_y {
        max_y = p3.y;
    }

    let x: u32 = if min_x < 0 {
        0
    } else {
        min_x as u32
    };
    let y: u32 = if min_y < 0 {
        0
    } else {
        min_y as u32
    };
    let right: u32 = if max_x < 0 {
        0
    } else {
        max_x as u32
    };
    let bottom: u32 = if max_y < 0 {
        0
    } else {
        max_y as u32
    };

    Rect { x, y, width: right - x, height: bottom - y }
}

/// The axis-aligned bounds depend only on which vertices appear, not on the
/// order in which they are listed: two vertex arrays holding the same
/// multiset of points have the same coordinate extremes, and hence the same
/// bounding box.
pub proof fn lemma_bounds_vertex_order_irrelevant(a: Seq<Point>, b: Seq<Point>)
    requires
        a.len() == 4,
        b.len() == 4,
        a.to_multiset() == b.to_multiset(),
    ensures
        low_x(a) == low_x(b),
        high_x(a) == high_x(b),
        low_y(a) == low_y(b),
        high_y(a) == high_y(b),
{
    broadcast use vstd::seq_lib::group_to_multiset_ensures;

    assert forall|i: int| 0 <= i < 4 implies a.contains(b[i]) by {
        assert(b.contains(b[i]));
        assert(b.to_multiset().count(b[i]) > 0);
    }
    assert forall|i: int| 0 <= i < 4 implies b.contains(a[i]) by {
        assert(a.contains(a[i]));
        assert(a.to_multiset().count(a[i]) > 0);
    }
    assert(low_x(a) == low_x(b)) by {
        lemma_each_at_least_low_x(a, b);
        lemma_each_at_least_low_x(b, a);
    }
    assert(high_x(a) == high_x(b)) by {
        lemma_each_at_most_high_x(a, b);
        lemma_each_at_most_high_x(b, a);
    }
    assert(low_y(a) == low_y(b)) by {
        lemma_each_at_least_low_y(a, b);
        lemma_each_at_least_low_y(b, a);
    }
    assert(high_y(a) == high_y(b)) by {
        lemma_each_at_most_high_y(a, b);
        lemma_each_at_most_high_y(b, a);
    }
}

/// If every vertex of `b` also appears in `a`, the smallest x-coordinate of
/// `a` is a lower bound for the smallest x-coordinate of `b`.
proof fn lemma_each_at_least_low_x(a: Seq<Point>, b: Seq<Point>)
    requires
        a.len() == 4,
        b.len() == 4,
        forall|i: int| 0 <= i < 4 ==> a.contains(b[i]),
    ensures
        low_x(a) <= low_x(b),
{
    assert(a.contains(b[0]) && a.contains(b[1]) && a.contains(b[2]) && a.contains(b[3]));
}

/// If every vertex of `b` also appears in `a`, the largest x-coordinate of
/// `a` is an upper bound for the largest x-coordinate of `b`.
proof fn lemma_each_at_most_high_x(a: Seq<Point>, b: Seq<Point>)
    requires
        a.len() == 4,
        b.len() == 4,
        forall|i: int| 0 <= i < 4 ==> a.contains(b[i]),
    ensures
        high_x(a) >= high_x(b),
{
    assert(a.contains(b[0]) && a.contains(b[1]) && a.contains(b[2]) && a.contains(b[3]));
}

/// If every vertex of `b` also appears in `a`, the smallest y-coordinate of
/// `a` is a lower bound for the smallest y-coordinate of `b`.
proof fn lemma_each_at_least_low_y(a: Seq<Point>, b: Seq<Point>)
    requires
        a.len() == 4,
        b.len() == 4,
        forall|i: int| 0 <= i < 4 ==> a.contains(b[i]),
    ensures
        low_y(a) <= low_y(b),
{
    assert(a.contains(b[0]) && a.contains(b[1]) && a.contains(b[2]) && a.contains(b[3]));
}

/// If every vertex of `b` also appears in `a`, the largest y-coordinate of
/// `a` is an upper bound for the largest y-coordinate of `b`.
proof fn lemma_each_at_most_high_y(a: Seq<Point>, b: Seq<Point>)
    requires
        a.len() == 4,
        b.len() == 4,
        forall|i: int| 0 <= i < 4 ==> a.contains(b[i]),
    ensures
        high_y(a) >= high_y(b),
{
    assert(a.contains(b[0]) && a.contains(b[1]) && a.contains(b[2]) && a.contains(b[3]));
}

} // verus!
