use vstd::prelude::*;

use crate::utils::generate_id;
use crate::{Coordinates, Geometry};

verus! {

/// Coordinates are kept within this bound so that every area and every
/// enlargement difference the index computes stays inside `i64`.
pub const COORD_LIMIT: i64 = 1073741824;

#[derive(PartialEq, Eq, Structural, Clone, Copy, Debug)]
pub enum GeometryType {
    Point,
    Polygon,
    Line,
}

/// An axis-aligned rectangle: `left` is the minimum corner, `right` the
/// maximum corner, and `area` caches `(right.x - left.x) * (right.y - left.y)`.
#[derive(Clone, Copy)]
pub struct BoundingRectangle {
    pub left: Coordinates,
    pub right: Coordinates,
    pub area: i64,
}

/// A stored geometry: an ordered, non-empty coordinate sequence together with
/// its derived shape classification and minimum bounding rectangle.
pub struct RtreeGeometry {
    pub id: String,
    pub coords: Geometry,
    pub mbr: BoundingRectangle,
    pub coordtype: GeometryType,
}

pub open spec fn min_c(a: i64, b: i64) -> i64 {
    if a <= b {
        a
    } else {
        b
    }
}

pub open spec fn max_c(a: i64, b: i64) -> i64 {
    if a >= b {
        a
    } else {
        b
    }
}

pub open spec fn coord_in_bounds(c: Coordinates) -> bool {
    &&& -COORD_LIMIT <= c.0 <= COORD_LIMIT
    &&& -COORD_LIMIT <= c.1 <= COORD_LIMIT
}

pub open spec fn corner_area(left: Coordinates, right: Coordinates) -> int {
    (right.0 - left.0) * (right.1 - left.1)
}

/// The corners are in bounds and the cached area matches the corners.
pub open spec fn rect_bounded(r: BoundingRectangle) -> bool {
    &&& coord_in_bounds(r.left)
    &&& coord_in_bounds(r.right)
    &&& r.area == corner_area(r.left, r.right)
}

pub open spec fn rect_ordered(r: BoundingRectangle) -> bool {
    &&& r.left.0 <= r.right.0
    &&& r.left.1 <= r.right.1
}

pub open spec fn rect_valid(r: BoundingRectangle) -> bool {
    rect_bounded(r) && rect_ordered(r)
}

/// `outer` contains `inner` (inclusive of boundaries).
pub open spec fn rect_contains(outer: BoundingRectangle, inner: BoundingRectangle) -> bool {
    &&& outer.left.0 <= inner.left.0
    &&& outer.left.1 <= inner.left.1
    &&& inner.right.0 <= outer.right.0
    &&& inner.right.1 <= outer.right.1
}

/// The tightest rectangle containing both `a` and `b`.
pub open spec fn enclose2(a: BoundingRectangle, b: BoundingRectangle) -> BoundingRectangle {
    let l = (min_c(a.left.0, b.left.0), min_c(a.left.1, b.left.1));
    let r = (max_c(a.right.0, b.right.0), max_c(a.right.1, b.right.1));
    BoundingRectangle { left: l, right: r, area: corner_area(l, r) as i64 }
}

/// The tightest rectangle containing every rectangle of a non-empty sequence,
/// folded from the left.
pub open spec fn enclosing_seq(s: Seq<BoundingRectangle>) -> BoundingRectangle
    decreases s.len(),
{
    if s.len() <= 1 {
        s[0]
    } else {
        enclose2(enclosing_seq(s.drop_last()), s.last())
    }
}

/// Componentwise max of the left corners and min of the right corners; may be
/// degenerate or have a negative extent when the inputs do not overlap.
pub open spec fn overlap_spec(a: BoundingRectangle, b: BoundingRectangle) -> BoundingRectangle {
    let l = (max_c(a.left.0, b.left.0), max_c(a.left.1, b.left.1));
    let r = (min_c(a.right.0, b.right.0), min_c(a.right.1, b.right.1));
    BoundingRectangle { left: l, right: r, area: corner_area(l, r) as i64 }
}

/// The projections of `a` and `b` overlap on both axes, touching boundaries
/// included.
pub open spec fn intersects_spec(a: BoundingRectangle, b: BoundingRectangle) -> bool {
    !(a.left.0 > b.right.0 || b.left.0 > a.right.0 || a.right.1 < b.left.1 || b.right.1
        < a.left.1)
}

pub open spec fn min_x_of(s: Seq<Coordinates>) -> i64
    decreases s.len(),
{
    if s.len() <= 1 {
        s[0].0
    } else {
        min_c(min_x_of(s.drop_last()), s.last().0)
    }
}

pub open spec fn min_y_of(s: Seq<Coordinates>) -> i64
    decreases s.len(),
{
    if s.len() <= 1 {
        s[0].1
    } else {
        min_c(min_y_of(s.drop_last()), s.last().1)
    }
}

pub open spec fn max_x_of(s: Seq<Coordinates>) -> i64
    decreases s.len(),
{
    if s.len() <= 1 {
        s[0].0
    } else {
        max_c(max_x_of(s.drop_last()), s.last().0)
    }
}

pub open spec fn max_y_of(s: Seq<Coordinates>) -> i64
    decreases s.len(),
{
    if s.len() <= 1 {
        s[0].1
    } else {
        max_c(max_y_of(s.drop_last()), s.last().1)
    }
}

/// The minimum bounding rectangle of a non-empty coordinate sequence.
pub open spec fn mbr_of(s: Seq<Coordinates>) -> BoundingRectangle {
    let l = (min_x_of(s), min_y_of(s));
    let r = (max_x_of(s), max_y_of(s));
    BoundingRectangle { left: l, right: r, area: corner_area(l, r) as i64 }
}

/// Point for fewer than two coordinates, Polygon when the ring closes on its
/// first coordinate, Line otherwise.
pub open spec fn classify(s: Seq<Coordinates>) -> GeometryType {
    if s.len() < 2 {
        GeometryType::Point
    } else if s[0] == s[s.len() - 1] {
        GeometryType::Polygon
    } else {
        GeometryType::Line
    }
}

pub open spec fn geom_wf(g: RtreeGeometry) -> bool {
    &&& g.coords@.len() >= 1
    &&& forall|i: int| 0 <= i < g.coords@.len() ==> coord_in_bounds(#[trigger] g.coords@[i])
    &&& g.mbr == mbr_of(g.coords@)
    &&& g.coordtype == classify(g.coords@)
    &&& rect_valid(g.mbr)
}

pub proof fn lemma_mul_bounds(x: int, y: int, m: int)
    requires
        0 <= m,
        -m <= x <= m,
        -m <= y <= m,
    ensures
        -(m * m) <= x * y <= m * m,
{
    assert(-(m * m) <= x * y <= m * m) by (nonlinear_arith)
        requires
            0 <= m,
            -m <= x <= m,
            -m <= y <= m,
    ;
}

pub proof fn lemma_mul_monotone(x1: int, y1: int, x2: int, y2: int)
    requires
        0 <= x1 <= x2,
        0 <= y1 <= y2,
    ensures
        x1 * y1 <= x2 * y2,
{
    assert(x1 * y1 <= x2 * y2) by (nonlinear_arith)
        requires
            0 <= x1 <= x2,
            0 <= y1 <= y2,
    ;
}

/// A valid rectangle's area is non-negative and fits comfortably in `i64`.
pub proof fn lemma_area_range(r: BoundingRectangle)
    requires
        rect_valid(r),
    ensures
        0 <= r.area <= 0x4000_0000_0000_0000,
{
    lemma_mul_bounds(r.right.0 - r.left.0, r.right.1 - r.left.1, 2 * COORD_LIMIT);
    lemma_mul_monotone(0, 0, r.right.0 - r.left.0, r.right.1 - r.left.1);
}

/// Law: the rectangle enclosing two valid rectangles is valid, contains both,
/// and its area is at least the area of each; and folding `enclosing_seq`
/// over the pair gives exactly that rectangle.
pub proof fn lemma_enclosing_contains_both(a: BoundingRectangle, b: BoundingRectangle)
    requires
        rect_valid(a),
        rect_valid(b),
    ensures
        rect_valid(enclose2(a, b)),
        rect_contains(enclose2(a, b), a),
        rect_contains(enclose2(a, b), b),
        enclose2(a, b).area >= a.area,
        enclose2(a, b).area >= b.area,
        enclosing_seq(seq![a, b]) == enclose2(a, b),
{
    let l = (min_c(a.left.0, b.left.0), min_c(a.left.1, b.left.1));
    let r = (max_c(a.right.0, b.right.0), max_c(a.right.1, b.right.1));
    lemma_mul_bounds(r.0 - l.0, r.1 - l.1, 2 * COORD_LIMIT);
    lemma_mul_monotone(0, 0, r.0 - l.0, r.1 - l.1);
    lemma_mul_monotone(a.right.0 - a.left.0, a.right.1 - a.left.1, r.0 - l.0, r.1 - l.1);
    lemma_mul_monotone(b.right.0 - b.left.0, b.right.1 - b.left.1, r.0 - l.0, r.1 - l.1);
    assert(seq![a, b].drop_last() =~= seq![a]);
    assert(seq![a, b].last() == b);
    assert(enclosing_seq(seq![a]) == a);
}

pub proof fn lemma_contains_trans(a: BoundingRectangle, b: BoundingRectangle, c: BoundingRectangle)
    requires
        rect_contains(a, b),
        rect_contains(b, c),
    ensures
        rect_contains(a, c),
{
}

/// `enclose2(a, b)` is the least rectangle above `a` and `b`: any rectangle
/// containing both contains it.
pub proof fn lemma_enclose2_least(
    x: BoundingRectangle,
    a: BoundingRectangle,
    b: BoundingRectangle,
)
    requires
        rect_contains(x, a),
        rect_contains(x, b),
    ensures
        rect_contains(x, enclose2(a, b)),
{
}

/// Growing one argument of `enclose2` grows the result.
pub proof fn lemma_enclose2_monotone(
    a: BoundingRectangle,
    c: BoundingRectangle,
    b: BoundingRectangle,
)
    requires
        rect_contains(a, c),
    ensures
        rect_contains(enclose2(a, b), enclose2(c, b)),
{
}

/// The rectangle enclosing a non-empty sequence of valid rectangles is valid
/// and contains each of them.
pub proof fn lemma_enclosing_seq_props(s: Seq<BoundingRectangle>)
    requires
        s.len() >= 1,
        forall|i: int| 0 <= i < s.len() ==> rect_valid(#[trigger] s[i]),
    ensures
        rect_valid(enclosing_seq(s)),
        forall|i: int| 0 <= i < s.len() ==> rect_contains(enclosing_seq(s), #[trigger] s[i]),
    decreases s.len(),
{
    if s.len() > 1 {
        lemma_enclosing_seq_props(s.drop_last());
        lemma_enclosing_contains_both(enclosing_seq(s.drop_last()), s.last());
        assert forall|i: int| 0 <= i < s.len() implies rect_contains(
            enclosing_seq(s),
            #[trigger] s[i],
        ) by {
            if i < s.len() - 1 {
                assert(s.drop_last()[i] == s[i]);
                lemma_contains_trans(enclosing_seq(s), enclosing_seq(s.drop_last()), s[i]);
            }
        }
    }
}

/// If every rectangle of a non-empty sequence lies inside `x`, so does the
/// rectangle enclosing the sequence.
pub proof fn lemma_enclosing_seq_in(s: Seq<BoundingRectangle>, x: BoundingRectangle)
    requires
        s.len() >= 1,
        forall|i: int| 0 <= i < s.len() ==> rect_contains(x, #[trigger] s[i]),
    ensures
        rect_contains(x, enclosing_seq(s)),
    decreases s.len(),
{
    if s.len() > 1 {
        lemma_enclosing_seq_in(s.drop_last(), x);
        lemma_enclose2_least(x, enclosing_seq(s.drop_last()), s.last());
    }
}

/// Law: rectangle intersection is symmetric.
pub proof fn lemma_intersects_symmetric(a: BoundingRectangle, b: BoundingRectangle)
    ensures
        intersects_spec(a, b) == intersects_spec(b, a),
{
}

/// The coordinatewise extrema of a non-empty in-bounds sequence bound every
/// coordinate of the sequence, so its bounding rectangle is valid.
pub proof fn lemma_mbr_of_props(s: Seq<Coordinates>)
    requires
        s.len() >= 1,
        forall|i: int| 0 <= i < s.len() ==> coord_in_bounds(#[trigger] s[i]),
    ensures
        forall|i: int|
            0 <= i < s.len() ==> min_x_of(s) <= (#[trigger] s[i]).0 <= max_x_of(s) && min_y_of(s)
                <= s[i].1 <= max_y_of(s),
        rect_valid(mbr_of(s)),
    decreases s.len(),
{
    if s.len() > 1 {
        lemma_mbr_of_props(s.drop_last());
        assert(forall|i: int| 0 <= i < s.len() - 1 ==> s.drop_last()[i] == #[trigger] s[i]);
    }
    lemma_mul_bounds(max_x_of(s) - min_x_of(s), max_y_of(s) - min_y_of(s), 2 * COORD_LIMIT);
    lemma_mul_monotone(0, 0, max_x_of(s) - min_x_of(s), max_y_of(s) - min_y_of(s));
}

fn min_i64(a: i64, b: i64) -> (r: i64)
    ensures
        r == min_c(a, b),
{
    if a <= b {
        a
    } else {
        b
    }
}

fn max_i64(a: i64, b: i64) -> (r: i64)
    ensures
        r == max_c(a, b),
{
    if a >= b {
        a
    } else {
        b
    }
}

impl BoundingRectangle {
    /// Builds the rectangle with the given corners; the caller must supply
    /// componentwise ordered, in-bounds corners.
    pub fn new(left: Coordinates, right: Coordinates) -> (r: BoundingRectangle)
        requires
            coord_in_bounds(left),
            coord_in_bounds(right),
            left.0 <= right.0,
            left.1 <= right.1,
        ensures
            r.left == left,
            r.right == right,
            r.area == corner_area(left, right),
            rect_valid(r),
    {
        BoundingRectangle { left, right, area: BoundingRectangle::count_area(&left, &right) }
    }

    fn count_area(left: &Coordinates, right: &Coordinates) -> (r: i64)
        requires
            coord_in_bounds(*left),
            coord_in_bounds(*right),
        ensures
            r == corner_area(*left, *right),
    {
        proof {
            lemma_mul_bounds(right.0 - left.0, right.1 - left.1, 2 * COORD_LIMIT);
        }
        (right.0 - left.0) * (right.1 - left.1)
    }

    /// Scans the coordinates once, tracking the running minima and maxima of
    /// both axes independently, and returns the rectangle they span.
    pub fn generate_mbr(coords: &Geometry) -> (r: BoundingRectangle)
        requires
            coords@.len() >= 1,
            forall|i: int| 0 <= i < coords@.len() ==> coord_in_bounds(#[trigger] coords@[i]),
        ensures
            r == mbr_of(coords@),
            rect_valid(r),
    {
        let first = coords[0];
        let mut min_x: i64 = first.0;
        let mut min_y: i64 = first.1;
        let mut max_x: i64 = first.0;
        let mut max_y: i64 = first.1;
        let ghost s = coords@;
        let mut i: usize = 1;
        proof {
            assert(s.take(1).len() == 1);
            assert(s.take(1)[0] == s[0]);
        }
        while i < coords.len()
            invariant
                1 <= i <= s.len(),
                s == coords@,
                s.len() >= 1,
                forall|k: int| 0 <= k < s.len() ==> coord_in_bounds(#[trigger] s[k]),
                min_x == min_x_of(s.take(i as int)),
                min_y == min_y_of(s.take(i as int)),
                max_x == max_x_of(s.take(i as int)),
                max_y == max_y_of(s.take(i as int)),
            decreases s.len() - i,
        {
            let c = coords[i];
            proof {
                assert(s.take(i + 1).drop_last() =~= s.take(i as int));
                assert(s.take(i + 1).last() == s[i as int]);
            }
            min_x = min_i64(min_x, c.0);
            min_y = min_i64(min_y, c.1);
            max_x = max_i64(max_x, c.0);
            max_y = max_i64(max_y, c.1);
            i = i + 1;
        }
        proof {
            assert(s.take(s.len() as int) =~= s);
            lemma_mbr_of_props(s);
        }
        BoundingRectangle::new((min_x, min_y), (max_x, max_y))
    }

    /// The componentwise max of the left corners and min of the right
    /// corners; the result may be degenerate or have a negative extent when
    /// the inputs do not overlap, so it is not built through `new`.
    pub fn overlap_rectangle(rect_1: &BoundingRectangle, rect_2: &BoundingRectangle) -> (r:
        BoundingRectangle)
        requires
            rect_bounded(*rect_1),
            rect_bounded(*rect_2),
        ensures
            r == overlap_spec(*rect_1, *rect_2),
    {
        let left = (max_i64(rect_1.left.0, rect_2.left.0), max_i64(rect_1.left.1, rect_2.left.1));
        let right = (min_i64(rect_1.right.0, rect_2.right.0), min_i64(
            rect_1.right.1,
            rect_2.right.1,
        ));
        let area = BoundingRectangle::count_area(&left, &right);
        proof {
            lemma_mul_bounds(right.0 - left.0, right.1 - left.1, 2 * COORD_LIMIT);
        }
        BoundingRectangle { left, right, area }
    }

    /// The tightest rectangle enclosing every rectangle of a non-empty list.
    pub fn common_mbr(list_mbrs: &Vec<BoundingRectangle>) -> (r: BoundingRectangle)
        requires
            list_mbrs@.len() >= 1,
            forall|i: int| 0 <= i < list_mbrs@.len() ==> rect_valid(#[trigger] list_mbrs@[i]),
        ensures
            r == enclosing_seq(list_mbrs@),
            rect_valid(r),
            forall|i: int| 0 <= i < list_mbrs@.len() ==> rect_contains(r, #[trigger] list_mbrs@[i]),
    {
        let ghost s = list_mbrs@;
        let mut acc = list_mbrs[0];
        let mut i: usize = 1;
        proof {
            assert(s.take(1).len() == 1);
            assert(s.take(1)[0] == s[0]);
        }
        while i < list_mbrs.len()
            invariant
                1 <= i <= s.len(),
                s == list_mbrs@,
                s.len() >= 1,
                forall|k: int| 0 <= k < s.len() ==> rect_valid(#[trigger] s[k]),
                acc == enclosing_seq(s.take(i as int)),
                rect_valid(acc),
            decreases s.len() - i,
        {
            proof {
                assert(s.take(i + 1).drop_last() =~= s.take(i as int));
                assert(s.take(i + 1).last() == s[i as int]);
            }
            acc = enclose_pair(&acc, &list_mbrs[i]);
            i = i + 1;
        }
        proof {
            assert(s.take(s.len() as int) =~= s);
            lemma_enclosing_seq_props(s);
        }
        acc
    }

    /// True iff the two rectangles overlap on both axes, boundary contact
    /// included.
    pub fn intersects(&self, rectangle: &BoundingRectangle) -> (r: bool)
        ensures
            r == intersects_spec(*self, *rectangle),
    {
        if (self.left.0 > rectangle.right.0) || (rectangle.left.0 > self.right.0) {
            false
        } else if (self.right.1 < rectangle.left.1) || (rectangle.right.1 < self.left.1) {
            false
        } else {
            true
        }
    }
}

/// The tightest rectangle containing the two given valid rectangles.
pub fn enclose_pair(a: &BoundingRectangle, b: &BoundingRectangle) -> (r: BoundingRectangle)
    requires
        rect_valid(*a),
        rect_valid(*b),
    ensures
        r == enclose2(*a, *b),
        rect_valid(r),
        rect_contains(r, *a),
        rect_contains(r, *b),
        r.area >= a.area,
        r.area >= b.area,
{
    proof {
        lemma_enclosing_contains_both(*a, *b);
    }
    BoundingRectangle::new(
        (min_i64(a.left.0, b.left.0), min_i64(a.left.1, b.left.1)),
        (max_i64(a.right.0, b.right.0), max_i64(a.right.1, b.right.1)),
    )
}

impl RtreeGeometry {
    /// Builds an entry from a non-empty, in-bounds coordinate sequence:
    /// classifies the shape, derives the bounding rectangle and draws a fresh
    /// identifier.
    pub fn new(coords: Geometry) -> (g: RtreeGeometry)
        requires
            coords@.len() >= 1,
            forall|i: int| 0 <= i < coords@.len() ==> coord_in_bounds(#[trigger] coords@[i]),
        ensures
            g.coords == coords,
            g.coordtype == classify(coords@),
            g.mbr == mbr_of(coords@),
            geom_wf(g),
            g.id@.len() == 36,
    {
        let length = coords.len();
        let coordtype = if length < 2 {
            GeometryType::Point
        } else {
            let c0 = coords[0];
            let cl = coords[length - 1];
            if c0.0 == cl.0 && c0.1 == cl.1 {
                GeometryType::Polygon
            } else {
                GeometryType::Line
            }
        };
        let mbr = RtreeGeometry::find_mbr(&coordtype, &coords);
        proof {
            lemma_mbr_of_props(coords@);
        }
        RtreeGeometry { id: generate_id(), coords, mbr, coordtype }
    }

    fn find_mbr(coordtype: &GeometryType, coords: &Geometry) -> (r: BoundingRectangle)
        requires
            coords@.len() >= 1,
            forall|i: int| 0 <= i < coords@.len() ==> coord_in_bounds(#[trigger] coords@[i]),
            *coordtype == classify(coords@),
        ensures
            r == mbr_of(coords@),
    {
        match *coordtype {
            GeometryType::Point => {
                proof {
                    assert(coords@.len() == 1);
                }
                BoundingRectangle::new(coords[0], coords[0])
            },
            _ => BoundingRectangle::generate_mbr(coords),
        }
    }
}

} // verus!
