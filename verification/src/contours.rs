//! Ranking and filtering of traced contour hierarchies.

use vstd::prelude::*;
use crate::point::Point;
use crate::ratio::{aspect_below, aspect_strictly_below, is_positive_finite_f32};

verus! {

/// How a traced border encloses its region.
#[derive(Clone, Copy, Debug, PartialEq, Eq, Structural)]
pub enum BorderType {
    /// The border of a foreground region.
    Outer,
    /// The border of a background region nested inside a foreground region.
    Hole,
}

/// A closed polygonal boundary traced from a binary image: the last point
/// connects back to the first. `parent`, when present, is the position of
/// the enclosing contour inside the same hierarchy snapshot.
#[derive(Clone, Debug, PartialEq)]
pub struct Contour {
    /// The boundary, in tracing order.
    pub points: Vec<Point>,
    /// Whether the border encloses foreground or background.
    pub border_type: BorderType,
    /// Position of the enclosing contour in the owning collection, if any.
    pub parent: Option<usize>,
}

/// The geometry primitive that computes minimum-area rectangles forms cross
/// products of coordinate differences in 32-bit arithmetic and casts a float
/// rotation back to 32 bits, so callers keep coordinates within this bound,
/// which leaves all of that far from overflow.
pub const MAX_GEOMETRY_COORD: i32 = 8192;

/// Whether every coordinate of the sequence stays within the range that the
/// minimum-area-rectangle primitive accepts.
pub open spec fn in_geometry_range(points: Seq<Point>) -> bool {
    forall|k: int|
        0 <= k < points.len() ==> {
            let p = #[trigger] points[k];
            -(MAX_GEOMETRY_COORD as int) <= p.x <= MAX_GEOMETRY_COORD as int
                && -(MAX_GEOMETRY_COORD as int) <= p.y <= MAX_GEOMETRY_COORD as int
        }
}

/// The four corners, in the order the geometry primitive reports them, of
/// the minimum-area rectangle enclosing a point sequence.
pub uninterp spec fn min_area_rect_of(points: Seq<Point>) -> Seq<Point>;

/// Relies on imageproc::geometry::min_area_rect: the four corners of the
/// smallest (not necessarily axis-aligned) rectangle enclosing the points.
/// The primitive panics on an empty input, and its 32-bit cross products
/// and float-to-32-bit casts stay in range for bounded coordinates, hence
/// the preconditions.
#[verifier::external_body]
fn min_area_rect(points: &Vec<Point>) -> (rect: [Point; 4])
    requires
        points@.len() >= 1,
        in_geometry_range(points@),
    ensures
        rect@ == min_area_rect_of(points@),
{
    let pts: Vec<imageproc::point::Point<i32>> = points.iter().map(
        |p| imageproc::point::Point::new(p.x, p.y),
    ).collect();
    let r = imageproc::geometry::min_area_rect(&pts);
    [
        Point { x: r[0].x, y: r[0].y },
        Point { x: r[1].x, y: r[1].y },
        Point { x: r[2].x, y: r[2].y },
        Point { x: r[3].x, y: r[3].y },
    ]
}

/// The IEEE-754 double bit pattern of the open polyline length that the
/// geometry collaborator computes for a point sequence: the sum, left to
/// right, of the Euclidean distances between consecutive points.
pub uninterp spec fn arc_length_bits_of(points: Seq<Point>) -> u64;

/// Relies on imageproc::geometry::arc_length with the closing flag off: the
/// summed Euclidean length of the open polyline through the points, a value
/// that depends on the points alone. It never panics: fewer than two points
/// simply contribute no segments. The length is a sum of square roots
/// starting from zero, and adding non-negative doubles never turns the sign
/// bit on, so the bit pattern is that of a non-negative double.
#[verifier::external_body]
fn arc_length_bits(points: &Vec<Point>) -> (bits: u64)
    ensures
        bits == arc_length_bits_of(points@),
        bits < 0x8000_0000_0000_0000,
{
    let pts: Vec<imageproc::point::Point<i32>> = points.iter().map(
        |p| imageproc::point::Point::new(p.x, p.y),
    ).collect();
    imageproc::geometry::arc_length(&pts, false).to_bits()
}

/// The f64 bit pattern of a contour's perimeter: zero for fewer than two
/// points; otherwise the length of the polyline that runs through the
/// points and back to the first, so a two-point contour counts its single
/// segment there and back.
pub open spec fn perimeter_bits_of(points: Seq<Point>) -> u64 {
    if points.len() < 2 {
        0
    } else {
        arc_length_bits_of(points.push(points[0]))
    }
}

/// Computes the perimeter bit pattern of a contour boundary.
fn perimeter_bits(points: &Vec<Point>) -> (bits: u64)
    ensures
        bits == perimeter_bits_of(points@),
        bits < 0x8000_0000_0000_0000,
{
    if points.len() < 2 {
        0
    } else {
        let mut closed: Vec<Point> = Vec::new();
        let mut i: usize = 0;
        while i < points.len()
            invariant
                i <= points@.len(),
                closed@ == points@.take(i as int),
            decreases points@.len() - i,
        {
            let p = points[i];
            closed.push(p);
            proof {
                assert(closed@ =~= points@.take(i + 1));
            }
            i = i + 1;
        }
        let first = points[0];
        closed.push(first);
        proof {
            assert(points@.take(points@.len() as int) =~= points@);
            assert(closed@ =~= points@.push(points@[0]));
        }
        arc_length_bits(&closed)
    }
}

/// The squared Euclidean distance between two points.
pub open spec fn side_sq(p: Point, q: Point) -> int {
    (p.x - q.x) * (p.x - q.x) + (p.y - q.y) * (p.y - q.y)
}

/// Computes a squared side length exactly, in 128-bit arithmetic.
fn side_sq_u128(p: Point, q: Point) -> (s: u128)
    ensures
        s == side_sq(p, q),
        s <= 0x40000_0000_0000_0000,
{
    let dx = (p.x as i64) - (q.x as i64);
    let dy = (p.y as i64) - (q.y as i64);
    proof {
        assert(-0x1_0000_0000 < dx < 0x1_0000_0000);
        assert(-0x1_0000_0000 < dy < 0x1_0000_0000);
        assert(0 <= (dx as int) * (dx as int) <= 0x1_0000_0000_0000_0000) by (nonlinear_arith)
            requires
                -0x1_0000_0000 < dx < 0x1_0000_0000,
        ;
        assert(0 <= (dy as int) * (dy as int) <= 0x1_0000_0000_0000_0000) by (nonlinear_arith)
            requires
                -0x1_0000_0000 < dy < 0x1_0000_0000,
        ;
    }
    let sx = (dx as i128) * (dx as i128);
    let sy = (dy as i128) * (dy as i128);
    (sx + sy) as u128
}

/// Whether a contour carries the required border type, when one is given.
pub open spec fn border_matches(c: Contour, required: Option<BorderType>) -> bool {
    match required {
        Some(t) => c.border_type == t,
        None => true,
    }
}

/// Whether the aspect-ratio filter keeps a contour: it must carry the
/// required border type when one is given, have at least four points, and
/// the minimum-area rectangle of its points must have two non-degenerate
/// adjacent sides whose elongation stays strictly below the threshold.
pub open spec fn keeps_contour(c: Contour, ratio_bits: u32, required: Option<BorderType>) -> bool {
    &&& border_matches(c, required)
    &&& c.points@.len() >= 4
    &&& {
        let r = min_area_rect_of(c.points@);
        let s1 = side_sq(r[0], r[1]);
        let s2 = side_sq(r[1], r[2]);
        s1 > 0 && s2 > 0 && aspect_below(s1, s2, ratio_bits)
    }
}

/// Decides whether the filter keeps a contour.
fn contour_kept(c: &Contour, ratio_bits: u32, required: Option<BorderType>) -> (kept: bool)
    requires
        is_positive_finite_f32(ratio_bits),
        border_matches(*c, required) && c.points@.len() >= 4 ==> in_geometry_range(c.points@),
    ensures
        kept == keeps_contour(*c, ratio_bits, required),
{
    match required {
        Some(t) => {
            if c.border_type != t {
                return false;
            }
        },
        None => {},
    }
    if c.points.len() < 4 {
        return false;
    }
    let rect = min_area_rect(&c.points);
    let s1 = side_sq_u128(rect[0], rect[1]);
    let s2 = side_sq_u128(rect[1], rect[2]);
    if s1 == 0 || s2 == 0 {
        return false;
    }
    aspect_strictly_below(s1, s2, ratio_bits)
}

/// Appending one element extends a filtered sequence by that element
/// exactly when the predicate holds of it.
proof fn lemma_filter_push(t: Seq<Contour>, x: Contour, pred: spec_fn(Contour) -> bool)
    ensures
        t.push(x).filter(pred) == if pred(x) {
            t.filter(pred).push(x)
        } else {
            t.filter(pred)
        },
{
    reveal(Seq::filter);
    assert(t.push(x).drop_last() =~= t);
    assert(t.push(x).last() == x);
    assert(t.push(x).len() == t.len() + 1);
}

/// Filters a contour collection in place by shape.
///
/// A contour survives exactly when it matches the required border type (if
/// one is given), has at least four points, and the minimum-area rectangle
/// of its points has two non-degenerate adjacent sides whose aspect ratio is
/// strictly below the threshold; survivors keep their relative order. The
/// threshold arrives as the bit pattern of a finite positive
/// single-precision number, and its exact value is what the elongation is
/// compared against.
pub fn remove_hypotenuse_in_place(
    contours: &mut Vec<Contour>,
    max_aspect_ratio_bits: u32,
    border_type: Option<BorderType>,
)
    requires
        is_positive_finite_f32(max_aspect_ratio_bits),
        forall|k: int|
            0 <= k < old(contours)@.len() ==> ((border_matches(
                #[trigger] old(contours)@[k],
                border_type,
            ) && old(contours)@[k].points@.len() >= 4) ==> in_geometry_range(
                old(contours)@[k].points@,
            )),
    ensures
        final(contours)@ == old(contours)@.filter(
            |c: Contour| keeps_contour(c, max_aspect_ratio_bits, border_type),
        ),
{
    let ghost orig = old(contours)@;
    let ghost pred = |c: Contour| keeps_contour(c, max_aspect_ratio_bits, border_type);
    let mut stack: Vec<Contour> = Vec::new();
    while contours.len() > 0
        invariant
            contours@ == orig.take(contours@.len() as int),
            stack@.len() + contours@.len() == orig.len(),
            forall|j: int| 0 <= j < stack@.len() ==> stack@[j] == orig[orig.len() - 1 - j],
        decreases contours@.len(),
    {
        let ghost l = contours@.len() as int;
        let c = contours.pop().unwrap();
        proof {
            assert(orig.take(l).subrange(0, l - 1) =~= orig.take(l - 1));
            assert(c == orig[l - 1]);
        }
        stack.push(c);
    }
    proof {
        assert(orig.take(0) =~= Seq::<Contour>::empty());
        assert(Seq::<Contour>::empty().filter(pred) =~= Seq::<Contour>::empty()) by {
            reveal(Seq::filter);
        }
    }
    while stack.len() > 0
        invariant
            is_positive_finite_f32(max_aspect_ratio_bits),
            forall|k: int|
                0 <= k < orig.len() ==> ((border_matches(#[trigger] orig[k], border_type)
                    && orig[k].points@.len() >= 4) ==> in_geometry_range(orig[k].points@)),
            stack@.len() <= orig.len(),
            forall|j: int| 0 <= j < stack@.len() ==> stack@[j] == orig[orig.len() - 1 - j],
            contours@ == orig.take((orig.len() - stack@.len()) as int).filter(pred),
            pred == (|c: Contour| keeps_contour(c, max_aspect_ratio_bits, border_type)),
        decreases stack@.len(),
    {
        let ghost i = orig.len() - stack@.len() as int;
        let c = stack.pop().unwrap();
        proof {
            assert(c == orig[i]);
            assert(orig.take(i + 1) =~= orig.take(i as int).push(orig[i]));
            lemma_filter_push(orig.take(i as int), c, pred);
        }
        if contour_kept(&c, max_aspect_ratio_bits, border_type) {
            contours.push(c);
        }
    }
    proof {
        assert(orig.take(orig.len() as int) =~= orig);
    }
}

/// Moving the element at `j` one slot to the left leaves the sequence's
/// multiset unchanged.
proof fn lemma_shift_left_multiset<T>(s: Seq<T>, j: int)
    requires
        1 <= j < s.len(),
    ensures
        s.remove(j).insert(j - 1, s[j]).to_multiset() == s.to_multiset(),
{
    broadcast use vstd::seq_lib::group_to_multiset_ensures;
    broadcast use vstd::seq_lib::to_multiset_insert;

    assert(s.contains(s[j]));
    assert(s.to_multiset().count(s[j]) > 0);
    assert(s.remove(j).insert(j - 1, s[j]).to_multiset() == s.remove(j).to_multiset().insert(
        s[j],
    ));
    assert(s.to_multiset().remove(s[j]).insert(s[j]) =~= s.to_multiset());
}

/// A suffix's multiset is the next shorter suffix's multiset with the
/// dropped element put back.
proof fn lemma_suffix_multiset_step<T>(s: Seq<T>, i: int)
    requires
        0 <= i < s.len(),
    ensures
        s.subrange(i, s.len() as int).to_multiset() == s.subrange(
            i + 1,
            s.len() as int,
        ).to_multiset().insert(s[i]),
{
    broadcast use vstd::seq_lib::to_multiset_insert;

    assert(s.subrange(i, s.len() as int) =~= s.subrange(i + 1, s.len() as int).insert(0, s[i]));
}

/// Whether ranked pairs stand in descending metric order.
pub open spec fn ranked_desc_u64(s: Seq<(Contour, u64)>) -> bool {
    forall|i: int, j: int| 0 <= i < j < s.len() ==> (#[trigger] s[i]).1 >= (#[trigger] s[j]).1
}

/// Whether counted pairs stand in descending count order.
pub open spec fn ranked_desc_usize(s: Seq<(Contour, usize)>) -> bool {
    forall|i: int, j: int| 0 <= i < j < s.len() ==> (#[trigger] s[i]).1 >= (#[trigger] s[j]).1
}

/// Sorts ranked pairs by their metric, largest first, keeping exactly the
/// given pairs. Pairs with equal metrics may land in any relative order.
fn sort_pairs_desc_u64(v: &mut Vec<(Contour, u64)>)
    ensures
        final(v)@.to_multiset() == old(v)@.to_multiset(),
        final(v)@.len() == old(v)@.len(),
        ranked_desc_u64(final(v)@),
{
    let ghost orig = old(v)@;
    if v.len() < 2 {
        return ;
    }
    let mut i: usize = 1;
    while i < v.len()
        invariant
            1 <= i <= v@.len(),
            v@.len() == orig.len(),
            v@.to_multiset() == orig.to_multiset(),
            forall|a: int, b: int| 0 <= a < b < i ==> (#[trigger] v@[a]).1 >= (#[trigger] v@[b]).1,
        decreases v@.len() - i,
    {
        let mut j: usize = i;
        while j > 0 && v[j - 1].1 < v[j].1
            invariant
                0 <= j <= i < v@.len(),
                v@.len() == orig.len(),
                v@.to_multiset() == orig.to_multiset(),
                forall|a: int, b: int|
                    0 <= a < b <= i && a != j && b != j ==> (#[trigger] v@[a]).1 >= (
                    #[trigger] v@[b]).1,
                forall|b: int| j < b <= i ==> v@[j as int].1 >= (#[trigger] v@[b]).1,
            decreases j,
        {
            let ghost prev = v@;
            let x = v.remove(j);
            v.insert(j - 1, x);
            proof {
                lemma_shift_left_multiset(prev, j as int);
                assert(v@ =~= prev.update(j - 1, prev[j as int]).update(j as int, prev[j - 1]));
            }
            j = j - 1;
        }
        proof {
            assert forall|a: int, b: int| 0 <= a < b <= i implies (#[trigger] v@[a]).1 >= (
            #[trigger] v@[b]).1 by {
                if b == j {
                    assert(v@[j - 1].1 >= v@[j as int].1);
                    if a < j - 1 {
                        assert(v@[a].1 >= v@[j - 1].1);
                    }
                }
            }
        }
        i = i + 1;
    }
}

/// Sorts counted pairs by their count, largest first, keeping exactly the
/// given pairs. Pairs with equal counts may land in any relative order.
fn sort_pairs_desc_usize(v: &mut Vec<(Contour, usize)>)
    ensures
        final(v)@.to_multiset() == old(v)@.to_multiset(),
        final(v)@.len() == old(v)@.len(),
        ranked_desc_usize(final(v)@),
{
    let ghost orig = old(v)@;
    if v.len() < 2 {
        return ;
    }
    let mut i: usize = 1;
    while i < v.len()
        invariant
            1 <= i <= v@.len(),
            v@.len() == orig.len(),
            v@.to_multiset() == orig.to_multiset(),
            forall|a: int, b: int| 0 <= a < b < i ==> (#[trigger] v@[a]).1 >= (#[trigger] v@[b]).1,
        decreases v@.len() - i,
    {
        let mut j: usize = i;
        while j > 0 && v[j - 1].1 < v[j].1
            invariant
                0 <= j <= i < v@.len(),
                v@.len() == orig.len(),
                v@.to_multiset() == orig.to_multiset(),
                forall|a: int, b: int|
                    0 <= a < b <= i && a != j && b != j ==> (#[trigger] v@[a]).1 >= (
                    #[trigger] v@[b]).1,
                forall|b: int| j < b <= i ==> v@[j as int].1 >= (#[trigger] v@[b]).1,
            decreases j,
        {
            let ghost prev = v@;
            let x = v.remove(j);
            v.insert(j - 1, x);
            proof {
                lemma_shift_left_multiset(prev, j as int);
                assert(v@ =~= prev.update(j - 1, prev[j as int]).update(j as int, prev[j - 1]));
            }
            j = j - 1;
        }
        proof {
            assert forall|a: int, b: int| 0 <= a < b <= i implies (#[trigger] v@[a]).1 >= (
            #[trigger] v@[b]).1 by {
                if b == j {
                    assert(v@[j - 1].1 >= v@[j as int].1);
                    if a < j - 1 {
                        assert(v@[a].1 >= v@[j - 1].1);
                    }
                }
            }
        }
        i = i + 1;
    }
}

/// Whether every ranked pair carries the perimeter of its own contour.
pub open spec fn paired_with_perimeters(s: Seq<(Contour, u64)>) -> bool {
    forall|k: int|
        0 <= k < s.len() ==> (#[trigger] s[k]).1 == perimeter_bits_of(s[k].0.points@)
}

/// Calculates the perimeter of each contour and sorts them in descending
/// order.
///
/// Each returned pair holds a contour moved out of the input and the bit
/// pattern of its perimeter as an IEEE-754 double: the sum of the Euclidean
/// distances between consecutive points, closing the loop from the last
/// point back to the first, and exactly zero for contours with fewer than
/// two points. Every pattern has its sign bit clear, and for non-negative
/// doubles unsigned bit order is value order, so descending order of the
/// bit patterns is descending order of the perimeters. The sort is
/// unstable: pairs with equal perimeters may come back in any relative
/// order.
pub fn sort_by_perimeters_owned(contours: Vec<Contour>) -> (ranked: Vec<(Contour, u64)>)
    ensures
        ranked@.len() == contours@.len(),
        ranked_desc_u64(ranked@),
        paired_with_perimeters(ranked@),
        forall|k: int| 0 <= k < ranked@.len() ==> (#[trigger] ranked@[k]).1 < 0x8000_0000_0000_0000,
        ranked@.to_multiset() == contours@.map_values(
            |c: Contour| (c, perimeter_bits_of(c.points@)),
        ).to_multiset(),
{
    broadcast use vstd::seq_lib::group_to_multiset_ensures;

    let ghost orig = contours@;
    let ghost target = orig.map_values(|c: Contour| (c, perimeter_bits_of(c.points@)));
    let mut rest = contours;
    let mut pairs: Vec<(Contour, u64)> = Vec::new();
    proof {
        assert(target.subrange(orig.len() as int, target.len() as int) =~= Seq::<(
            Contour,
            u64,
        )>::empty());
        assert(pairs@.to_multiset() =~= Seq::<(Contour, u64)>::empty().to_multiset());
    }
    while rest.len() > 0
        invariant
            target == orig.map_values(|c: Contour| (c, perimeter_bits_of(c.points@))),
            target.len() == orig.len(),
            rest@ == orig.take(rest@.len() as int),
            pairs@.len() + rest@.len() == orig.len(),
            forall|k: int| 0 <= k < pairs@.len() ==> (#[trigger] pairs@[k]).1 < 0x8000_0000_0000_0000,
            pairs@.to_multiset() == target.subrange(
                rest@.len() as int,
                target.len() as int,
            ).to_multiset(),
        decreases rest@.len(),
    {
        let ghost l = rest@.len() as int;
        let c = rest.pop().unwrap();
        proof {
            assert(orig.take(l).subrange(0, l - 1) =~= orig.take(l - 1));
            assert(c == orig[l - 1]);
        }
        let b = perimeter_bits(&c.points);
        proof {
            assert(target[l - 1] == (c, b));
        }
        let ghost pre = pairs@;
        pairs.push((c, b));
        proof {
            vstd::seq_lib::to_multiset_build(pre, (c, b));
            assert(pre.push((c, b)).to_multiset() == pre.to_multiset().insert((c, b)));
            lemma_suffix_multiset_step(target, l - 1);
        }
    }
    proof {
        assert(target.subrange(0, target.len() as int) =~= target);
    }
    let ghost presort = pairs@;
    sort_pairs_desc_u64(&mut pairs);
    proof {
        assert forall|k: int| 0 <= k < pairs@.len() implies (#[trigger] pairs@[k]).1
            == perimeter_bits_of(pairs@[k].0.points@) && pairs@[k].1 < 0x8000_0000_0000_0000 by {
            let pr = pairs@[k];
            assert(pairs@.contains(pr));
            assert(pairs@.to_multiset().count(pr) > 0);
            assert(target.contains(pr));
            let w = choose|w: int| 0 <= w < target.len() && target[w] == pr;
            assert(target[w] == (orig[w], perimeter_bits_of(orig[w].points@)));
            assert(presort.contains(pr));
            let u = choose|u: int| 0 <= u < presort.len() && presort[u] == pr;
            assert(presort[u].1 < 0x8000_0000_0000_0000);
        }
    }
    pairs
}

/// Whether a contour's parent link points at position `parent`.
pub open spec fn is_child_of(c: Contour, parent: int) -> bool {
    match c.parent {
        Some(p) => p == parent,
        None => false,
    }
}

/// The number of contours among the first `upto` whose parent link points
/// at position `parent`.
pub open spec fn child_count_upto(s: Seq<Contour>, parent: int, upto: int) -> int
    decreases upto,
{
    if upto <= 0 {
        0
    } else {
        child_count_upto(s, parent, upto - 1) + if is_child_of(s[upto - 1], parent) {
            1int
        } else {
            0int
        }
    }
}

/// The number of direct children of position `parent` in the hierarchy.
pub open spec fn direct_child_count(s: Seq<Contour>, parent: int) -> int {
    child_count_upto(s, parent, s.len() as int)
}

/// A prefix of length `upto` holds at most `upto` children of any position.
proof fn lemma_child_count_upto_bound(s: Seq<Contour>, parent: int, upto: int)
    requires
        0 <= upto,
    ensures
        0 <= child_count_upto(s, parent, upto) <= upto,
    decreases upto,
{
    if upto > 0 {
        lemma_child_count_upto_bound(s, parent, upto - 1);
    }
}

/// The pairing that the child-count ranking returns, before sorting: each
/// contour beside the number of its direct children.
pub open spec fn child_count_pairing(s: Seq<Contour>) -> Seq<(Contour, usize)> {
    Seq::new(s.len(), |k: int| (s[k], direct_child_count(s, k) as usize))
}

/// Counts the direct children of each contour and sorts the contours in
/// descending order of that count.
///
/// A contour at position `p` counts as a child of position `q` exactly when
/// its parent link is `Some(q)`; parent links that point outside the
/// collection are ignored. Each returned pair holds a contour moved out of
/// the input beside its own count. The sort is unstable: pairs with equal
/// counts may come back in any relative order.
pub fn sort_by_direct_children_count_owned(contours: Vec<Contour>) -> (ranked: Vec<
    (Contour, usize),
>)
    ensures
        ranked@.len() == contours@.len(),
        ranked_desc_usize(ranked@),
        ranked@.to_multiset() == child_count_pairing(contours@).to_multiset(),
{
    broadcast use vstd::seq_lib::group_to_multiset_ensures;

    let ghost orig = contours@;
    let ghost target = child_count_pairing(orig);
    if contours.len() == 0 {
        let ranked: Vec<(Contour, usize)> = Vec::new();
        proof {
            assert(target =~= Seq::<(Contour, usize)>::empty());
            assert(ranked@.to_multiset() =~= target.to_multiset());
        }
        return ranked;
    }
    let n = contours.len();
    let mut counts: Vec<usize> = Vec::new();
    while counts.len() < n
        invariant
            counts@.len() <= n,
            forall|p: int| 0 <= p < counts@.len() ==> (#[trigger] counts@[p]) == 0,
        decreases n - counts@.len(),
    {
        counts.push(0);
    }
    let mut idx: usize = 0;
    while idx < n
        invariant
            n == orig.len(),
            contours@ == orig,
            counts@.len() == n,
            idx <= n,
            forall|p: int|
                0 <= p < n ==> (#[trigger] counts@[p]) == child_count_upto(orig, p, idx as int),
            forall|p: int| 0 <= p < n ==> (#[trigger] counts@[p]) <= idx,
        decreases n - idx,
    {
        let link = contours[idx].parent;
        let ghost before = counts@;
        match link {
            Some(p) => {
                if p < n {
                    let cur = counts[p];
                    counts[p] = cur + 1;
                }
            },
            None => {},
        }
        proof {
            assert forall|q: int| 0 <= q < n implies counts@[q] == child_count_upto(
                orig,
                q,
                idx + 1,
            ) by {
                assert(child_count_upto(orig, q, idx + 1) == child_count_upto(orig, q, idx as int)
                    + if is_child_of(orig[idx as int], q) {
                    1int
                } else {
                    0int
                });
            }
        }
        idx = idx + 1;
    }
    let mut rest = contours;
    let mut pairs: Vec<(Contour, usize)> = Vec::new();
    proof {
        assert(target.subrange(orig.len() as int, target.len() as int) =~= Seq::<(
            Contour,
            usize,
        )>::empty());
        assert(pairs@.to_multiset() =~= Seq::<(Contour, usize)>::empty().to_multiset());
    }
    while rest.len() > 0
        invariant
            n == orig.len(),
            target == child_count_pairing(orig),
            target.len() == orig.len(),
            counts@.len() == n,
            forall|p: int| 0 <= p < n ==> (#[trigger] counts@[p]) == direct_child_count(orig, p),
            rest@ == orig.take(rest@.len() as int),
            pairs@.len() + rest@.len() == orig.len(),
            pairs@.to_multiset() == target.subrange(
                rest@.len() as int,
                target.len() as int,
            ).to_multiset(),
        decreases rest@.len(),
    {
        let ghost l = rest@.len() as int;
        let cnt = counts[rest.len() - 1];
        let c = rest.pop().unwrap();
        proof {
            assert(orig.take(l).subrange(0, l - 1) =~= orig.take(l - 1));
            assert(c == orig[l - 1]);
            lemma_child_count_upto_bound(orig, l - 1, orig.len() as int);
            assert(target[l - 1] == (c, cnt));
        }
        let ghost pre = pairs@;
        pairs.push((c, cnt));
        proof {
            vstd::seq_lib::to_multiset_build(pre, (c, cnt));
            assert(pre.push((c, cnt)).to_multiset() == pre.to_multiset().insert((c, cnt)));
            lemma_suffix_multiset_step(target, l - 1);
        }
    }
    proof {
        assert(target.subrange(0, target.len() as int) =~= target);
    }
    sort_pairs_desc_usize(&mut pairs);
    pairs
}

/// A contour with fewer than two points has a perimeter of exactly zero:
/// its bit pattern is that of the double 0.0.
pub proof fn lemma_short_contour_zero_perimeter(points: Seq<Point>)
    requires
        points.len() < 2,
    ensures
        perimeter_bits_of(points) == 0,
{
}

/// A contour with fewer than four points is never kept by the filter,
/// whatever the threshold and border requirement.
pub proof fn lemma_few_points_never_kept(c: Contour, ratio_bits: u32, required: Option<BorderType>)
    requires
        c.points@.len() < 4,
    ensures
        !keeps_contour(c, ratio_bits, required),
{
}

/// A contour whose minimum-area rectangle has a zero-length adjacent side is
/// never kept by the filter, whatever the threshold and border requirement.
pub proof fn lemma_degenerate_rectangle_never_kept(
    c: Contour,
    ratio_bits: u32,
    required: Option<BorderType>,
)
    requires
        side_sq(min_area_rect_of(c.points@)[0], min_area_rect_of(c.points@)[1]) == 0 || side_sq(
            min_area_rect_of(c.points@)[1],
            min_area_rect_of(c.points@)[2],
        ) == 0,
    ensures
        !keeps_contour(c, ratio_bits, required),
{
}

/// When a required border type is given, filtering removes every contour of
/// any other border type: each survivor carries the required type.
pub proof fn lemma_required_type_filters_rest(s: Seq<Contour>, ratio_bits: u32, t: BorderType)
    ensures
        s.filter(|c: Contour| keeps_contour(c, ratio_bits, Some(t))).all(
            |c: Contour| c.border_type == t,
        ),
{
    let pred = |c: Contour| keeps_contour(c, ratio_bits, Some(t));
    let f = s.filter(pred);
    assert forall|j: int| 0 <= j < f.len() implies (#[trigger] f[j]).border_type == t by {
        s.lemma_filter_pred(pred, j);
    }
}

} // verus!
