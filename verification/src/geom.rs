//! Exact planar geometry on integer coordinates.
//!
//! Coordinates are longitude/latitude in decimicro degrees (1e-7 of a
//! degree), the exact fixed-point form in which map nodes are stored. All
//! predicates are computed with exact integer arithmetic, so intersection
//! tests involve no rounding and no tolerance.

use vstd::prelude::*;

verus! {

/// A single coordinate: longitude and latitude in decimicro degrees.
#[derive(Clone, Copy, Debug, PartialEq, Eq, Structural)]
pub struct Coord {
    pub x: i32,
    pub y: i32,
}

/// Twice the signed area of the triangle (p, q, r): positive when the
/// three points make a left turn, negative for a right turn, zero when
/// they are collinear.
pub open spec fn orient(p: Coord, q: Coord, r: Coord) -> int {
    (q.x - p.x) * (r.y - p.y) - (q.y - p.y) * (r.x - p.x)
}

/// Computes `orient` exactly; i128 holds any product of two coordinate
/// differences.
pub fn orient_exec(p: Coord, q: Coord, r: Coord) -> (o: i128)
    ensures
        o == orient(p, q, r),
{
    let ax: i64 = (q.x as i64) - (p.x as i64);
    let ay: i64 = (q.y as i64) - (p.y as i64);
    let bx: i64 = (r.x as i64) - (p.x as i64);
    let by: i64 = (r.y as i64) - (p.y as i64);
    proof {
        assert((-4294967296 <= ax <= 4294967296 && -4294967296 <= by <= 4294967296)
            ==> -18446744073709551616 <= ax * by <= 18446744073709551616) by (nonlinear_arith);
        assert((-4294967296 <= ay <= 4294967296 && -4294967296 <= bx <= 4294967296)
            ==> -18446744073709551616 <= ay * bx <= 18446744073709551616) by (nonlinear_arith);
    }
    let lhs: i128 = (ax as i128) * (by as i128);
    let rhs: i128 = (ay as i128) * (bx as i128);
    lhs - rhs
}

/// `c` lies within the closed interval spanned by `a` and `b`.
pub open spec fn between(a: int, b: int, c: int) -> bool {
    (a <= c && c <= b) || (b <= c && c <= a)
}

/// A point `r` known to be collinear with segment (p, q) actually lies on
/// the closed segment: it is within the segment's bounding rectangle.
pub open spec fn on_segment(p: Coord, q: Coord, r: Coord) -> bool {
    between(p.x as int, q.x as int, r.x as int) && between(p.y as int, q.y as int, r.y as int)
}

fn on_segment_exec(p: Coord, q: Coord, r: Coord) -> (res: bool)
    ensures
        res == on_segment(p, q, r),
{
    ((p.x <= r.x && r.x <= q.x) || (q.x <= r.x && r.x <= p.x))
        && ((p.y <= r.y && r.y <= q.y) || (q.y <= r.y && r.y <= p.y))
}

/// The closed segments (p, q) and (r, s) share at least one point. This is
/// the standard exact orientation-based characterization: either the two
/// segments properly cross (each segment's endpoints lie strictly on
/// opposite sides of the other's supporting line), or some endpoint is
/// collinear with and inside the other segment. Endpoint touching and
/// collinear overlap therefore count as intersection, and degenerate
/// (single-point) segments are handled correctly.
pub open spec fn segments_intersect(p: Coord, q: Coord, r: Coord, s: Coord) -> bool {
    let o1 = orient(p, q, r);
    let o2 = orient(p, q, s);
    let o3 = orient(r, s, p);
    let o4 = orient(r, s, q);
    ||| (((o1 > 0 && o2 < 0) || (o1 < 0 && o2 > 0)) && ((o3 > 0 && o4 < 0) || (o3 < 0 && o4
        > 0)))
    ||| (o1 == 0 && on_segment(p, q, r))
    ||| (o2 == 0 && on_segment(p, q, s))
    ||| (o3 == 0 && on_segment(r, s, p))
    ||| (o4 == 0 && on_segment(r, s, q))
}

pub fn segments_intersect_exec(p: Coord, q: Coord, r: Coord, s: Coord) -> (res: bool)
    ensures
        res == segments_intersect(p, q, r, s),
{
    let o1: i128 = orient_exec(p, q, r);
    let o2: i128 = orient_exec(p, q, s);
    let o3: i128 = orient_exec(r, s, p);
    let o4: i128 = orient_exec(r, s, q);
    if ((o1 > 0 && o2 < 0) || (o1 < 0 && o2 > 0)) && ((o3 > 0 && o4 < 0) || (o3 < 0 && o4 > 0)) {
        return true;
    }
    if o1 == 0 && on_segment_exec(p, q, r) {
        return true;
    }
    if o2 == 0 && on_segment_exec(p, q, s) {
        return true;
    }
    if o3 == 0 && on_segment_exec(r, s, p) {
        return true;
    }
    if o4 == 0 && on_segment_exec(r, s, q) {
        return true;
    }
    false
}

/// The intersection test is symmetric in its two segments.
pub proof fn lemma_segments_intersect_symmetric(p: Coord, q: Coord, r: Coord, s: Coord)
    ensures
        segments_intersect(p, q, r, s) == segments_intersect(r, s, p, q),
{
}

/// Two polylines intersect when some line sub-segment of one touches or
/// crosses some line sub-segment of the other. A polyline with fewer than
/// two points has no sub-segments and intersects nothing.
pub open spec fn polylines_intersect(a: Seq<Coord>, b: Seq<Coord>) -> bool {
    exists|i: int, j: int|
        0 <= i && i + 1 < a.len() && 0 <= j && j + 1 < b.len() && #[trigger] segments_intersect(
            a[i],
            a[i + 1],
            b[j],
            b[j + 1],
        )
}

/// The polyline intersection relation is symmetric.
pub proof fn lemma_polylines_intersect_symmetric(a: Seq<Coord>, b: Seq<Coord>)
    ensures
        polylines_intersect(a, b) == polylines_intersect(b, a),
{
    if polylines_intersect(a, b) {
        let (i, j) = choose|i: int, j: int|
            0 <= i && i + 1 < a.len() && 0 <= j && j + 1 < b.len() && #[trigger] segments_intersect(
                a[i],
                a[i + 1],
                b[j],
                b[j + 1],
            );
        lemma_segments_intersect_symmetric(a[i], a[i + 1], b[j], b[j + 1]);
        assert(segments_intersect(b[j], b[j + 1], a[i], a[i + 1]));
    }
    if polylines_intersect(b, a) {
        let (j, i) = choose|j: int, i: int|
            0 <= j && j + 1 < b.len() && 0 <= i && i + 1 < a.len() && #[trigger] segments_intersect(
                b[j],
                b[j + 1],
                a[i],
                a[i + 1],
            );
        lemma_segments_intersect_symmetric(b[j], b[j + 1], a[i], a[i + 1]);
        assert(segments_intersect(a[i], a[i + 1], b[j], b[j + 1]));
    }
}

pub fn polylines_intersect_exec(a: &Vec<Coord>, b: &Vec<Coord>) -> (res: bool)
    ensures
        res == polylines_intersect(a@, b@),
{
    if a.len() < 2 || b.len() < 2 {
        return false;
    }
    let mut i: usize = 0;
    while i < a.len() - 1
        invariant
            2 <= a@.len() && 2 <= b@.len(),
            a@.len() <= usize::MAX && b@.len() <= usize::MAX,
            i <= a@.len() - 1,
            forall|ii: int, jj: int|
                0 <= ii && ii < i && ii + 1 < a@.len() && 0 <= jj && jj + 1 < b@.len()
                    ==> !(#[trigger] segments_intersect(a@[ii], a@[ii + 1], b@[jj], b@[jj + 1])),
        decreases a@.len() - i,
    {
        let mut j: usize = 0;
        while j < b.len() - 1
            invariant
                2 <= a@.len() && 2 <= b@.len(),
                a@.len() <= usize::MAX && b@.len() <= usize::MAX,
                i + 1 < a@.len(),
                j <= b@.len() - 1,
                forall|ii: int, jj: int|
                    0 <= ii && ii < i && ii + 1 < a@.len() && 0 <= jj && jj + 1 < b@.len()
                        ==> !(#[trigger] segments_intersect(a@[ii], a@[ii + 1], b@[jj], b@[jj + 1])),
                forall|jj: int|
                    0 <= jj && jj < j && jj + 1 < b@.len() ==> !(#[trigger] segments_intersect(
                        a@[i as int],
                        a@[i + 1],
                        b@[jj],
                        b@[jj + 1],
                    )),
            decreases b@.len() - j,
        {
            if segments_intersect_exec(a[i], a[i + 1], b[j], b[j + 1]) {
                return true;
            }
            j = j + 1;
        }
        i = i + 1;
    }
    false
}

/// The minimal axis-aligned rectangle around a polyline.
#[derive(Clone, Copy, Debug, PartialEq, Eq, Structural)]
pub struct BoundingBox {
    pub min_x: i32,
    pub min_y: i32,
    pub max_x: i32,
    pub max_y: i32,
}

/// The box contains the coordinate.
pub open spec fn box_covers(bb: BoundingBox, c: Coord) -> bool {
    bb.min_x <= c.x && c.x <= bb.max_x && bb.min_y <= c.y && c.y <= bb.max_y
}

/// `bb` is exactly the minimal axis-aligned rectangle around `pts`: it
/// covers every point and each of its four sides is attained by some point.
pub open spec fn is_bbox_of(bb: BoundingBox, pts: Seq<Coord>) -> bool {
    &&& forall|i: int| 0 <= i && i < pts.len() ==> box_covers(bb, #[trigger] pts[i])
    &&& exists|i: int| 0 <= i && i < pts.len() && #[trigger] pts[i].x == bb.min_x
    &&& exists|i: int| 0 <= i && i < pts.len() && #[trigger] pts[i].x == bb.max_x
    &&& exists|i: int| 0 <= i && i < pts.len() && #[trigger] pts[i].y == bb.min_y
    &&& exists|i: int| 0 <= i && i < pts.len() && #[trigger] pts[i].y == bb.max_y
}

/// Builds the bounding envelope of a polyline; an empty polyline has none.
pub fn bbox_of(pts: &Vec<Coord>) -> (res: Option<BoundingBox>)
    ensures
        res is Some <==> pts@.len() > 0,
        res matches Some(bb) ==> is_bbox_of(bb, pts@),
{
    if pts.len() == 0 {
        return None;
    }
    let first = pts[0];
    let mut bb = BoundingBox { min_x: first.x, min_y: first.y, max_x: first.x, max_y: first.y };
    let mut i: usize = 1;
    while i < pts.len()
        invariant
            1 <= i && i <= pts@.len(),
            forall|k: int| 0 <= k && k < i ==> box_covers(bb, #[trigger] pts@[k]),
            exists|k: int| 0 <= k && k < i && #[trigger] pts@[k].x == bb.min_x,
            exists|k: int| 0 <= k && k < i && #[trigger] pts@[k].x == bb.max_x,
            exists|k: int| 0 <= k && k < i && #[trigger] pts@[k].y == bb.min_y,
            exists|k: int| 0 <= k && k < i && #[trigger] pts@[k].y == bb.max_y,
        decreases pts@.len() - i,
    {
        let p = pts[i];
        if p.x < bb.min_x {
            bb.min_x = p.x;
        }
        if p.x > bb.max_x {
            bb.max_x = p.x;
        }
        if p.y < bb.min_y {
            bb.min_y = p.y;
        }
        if p.y > bb.max_y {
            bb.max_y = p.y;
        }
        i = i + 1;
    }
    Some(bb)
}

/// The two rectangles share at least one point (closed-boundary overlap).
pub open spec fn boxes_overlap(a: BoundingBox, b: BoundingBox) -> bool {
    a.min_x <= b.max_x && b.min_x <= a.max_x && a.min_y <= b.max_y && b.min_y <= a.max_y
}

/// Envelope-overlap query predicate, the broad-phase filter of a spatial
/// index.
pub fn boxes_overlap_exec(a: &BoundingBox, b: &BoundingBox) -> (res: bool)
    ensures
        res == boxes_overlap(*a, *b),
{
    a.min_x <= b.max_x && b.min_x <= a.max_x && a.min_y <= b.max_y && b.min_y <= a.max_y
}

} // verus!
