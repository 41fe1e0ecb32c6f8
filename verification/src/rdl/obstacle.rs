//! What the router must not run into.

use crate::geom::{
    copy_points, meets, on_segment, pt, rt, same_point, segments_meet, segments_touch, side,
    touches_rect, turn, wide_point, widen, wpt, Point, Rect, WidePoint,
};
use vstd::prelude::*;

verus! {

/// The ring as pairs of whole numbers.
pub open spec fn ring_of(points: Seq<Point>) -> Seq<(int, int)> {
    Seq::new(points.len(), |i: int| pt(points[i]))
}

pub open spec fn wide_ring_of(points: Seq<WidePoint>) -> Seq<(int, int)> {
    Seq::new(points.len(), |i: int| wpt(points[i]))
}

pub open spec fn wide_ring(points: Seq<WidePoint>) -> bool {
    forall|i: int| 0 <= i < points.len() ==> wide_point(#[trigger] points[i])
}

/// The edge from `a` to `b` crosses the ray that leaves `p` towards larger x.
pub open spec fn crosses_ray(p: (int, int), a: (int, int), b: (int, int)) -> bool {
    &&& (a.1 > p.1) != (b.1 > p.1)
    &&& if b.1 > a.1 {
        side(a, b, p) > 0
    } else {
        side(a, b, p) < 0
    }
}

/// The ray that leaves `p` towards larger x crosses an odd number of the ring's edges.
pub open spec fn inside(p: (int, int), ring: Seq<(int, int)>) -> bool
    decreases ring.len(),
{
    if ring.len() < 2 {
        false
    } else {
        inside(p, ring.drop_last()) != crosses_ray(p, ring[ring.len() - 2], ring.last())
    }
}

/// The segment meets an edge of the ring.
pub open spec fn meets_edge(a: (int, int), b: (int, int), ring: Seq<(int, int)>) -> bool {
    exists|i: int| 0 <= i < ring.len() - 1 && segments_meet(a, b, #[trigger] ring[i], ring[i + 1])
}

/// The segment meets the region that a closed ring bounds: it meets an edge, or it lies within.
pub open spec fn meets_ring(a: (int, int), b: (int, int), ring: Seq<(int, int)>) -> bool {
    meets_edge(a, b, ring) || inside(a, ring)
}

/// Does a segment touch a rectangle?
///
/// Closed: a segment that only grazes a corner counts as blocked. The router is deciding whether a
/// wire may run here, and a wire touching an obstruction is a short.
pub fn hits(p0: Point, p1: Point, r: Rect) -> (hit: bool)
    ensures
        hit == meets(pt(p0), pt(p1), rt(r)),
{
    touches_rect(widen(p0), widen(p1), (r.0 as i64, r.1 as i64, r.2 as i64, r.3 as i64))
}

/// Do the two segments touch? Endpoints and collinear overlap count.
pub fn segments_intersect(p1: Point, p2: Point, p3: Point, p4: Point) -> (touch: bool)
    ensures
        touch == segments_meet(pt(p1), pt(p2), pt(p3), pt(p4)),
{
    segments_touch(widen(p1), widen(p2), widen(p3), widen(p4))
}

/// Does the point lie on the segment `a`-`b`, its ends included?
pub fn point_on_segment(p: Point, a: Point, b: Point) -> (on: bool)
    ensures
        on == on_segment(pt(p), pt(a), pt(b)),
{
    let (x0, x1) = if a.0 < b.0 { (a.0, b.0) } else { (b.0, a.0) };
    let (y0, y1) = if a.1 < b.1 { (a.1, b.1) } else { (b.1, a.1) };
    turn(widen(a), widen(b), widen(p)) == 0 && x0 <= p.0 && p.0 <= x1 && y0 <= p.1 && p.1 <= y1
}

/// Does the segment touch the region the ring bounds?
pub fn touches_ring(a: WidePoint, b: WidePoint, ring: &Vec<WidePoint>) -> (touch: bool)
    requires
        wide_point(a),
        wide_point(b),
        wide_ring(ring@),
    ensures
        touch == meets_ring(wpt(a), wpt(b), wide_ring_of(ring@)),
{
    let ghost r = wide_ring_of(ring@);
    let mut odd = false;
    let mut i: usize = 1;
    assert(ring.len() > 0 ==> !inside(wpt(a), r.take(1)));
    while i < ring.len()
        invariant
            1 <= i,
            i <= ring.len() || (i == 1 && ring.len() == 0),
            wide_point(a),
            wide_point(b),
            wide_ring(ring@),
            r == wide_ring_of(ring@),
            forall|k: int|
                0 <= k < i - 1 ==> !segments_meet(wpt(a), wpt(b), #[trigger] r[k], r[k + 1]),
            ring.len() > 0 ==> odd == inside(wpt(a), r.take(i as int)),
            ring.len() == 0 ==> !odd,
        decreases ring.len() - i,
    {
        let p = ring[i - 1];
        let q = ring[i];
        if segments_touch(a, b, p, q) {
            assert(segments_meet(wpt(a), wpt(b), r[i - 1], r[i as int]));
            return true;
        }
        assert(r.take(i + 1).drop_last() =~= r.take(i as int));
        if (p.1 > a.1) != (q.1 > a.1) {
            let s: i128 = turn(p, q, a);
            if (q.1 > p.1 && s > 0) || (q.1 <= p.1 && s < 0) {
                odd = !odd;
            }
        }
        i += 1;
    }
    assert(r.take(r.len() as int) =~= r);
    odd
}

/// The ring with room to spare.
fn widen_ring(points: &[Point]) -> (ring: Vec<WidePoint>)
    ensures
        wide_ring(ring@),
        wide_ring_of(ring@) == ring_of(points@),
{
    let mut ring: Vec<WidePoint> = Vec::new();
    let mut i: usize = 0;
    while i < points.len()
        invariant
            i <= points.len(),
            ring.len() == i,
            wide_ring(ring@),
            forall|k: int| 0 <= k < i ==> wpt(#[trigger] ring@[k]) == pt(points@[k]),
        decreases points.len() - i,
    {
        ring.push(widen(points[i]));
        i += 1;
    }
    assert(wide_ring_of(ring@) =~= ring_of(points@));
    ring
}

/// Does the segment `a`-`b` touch the closed ring `poly`?
///
/// A segment misses the ring only when it misses every edge and lies wholly outside, which a ray
/// cast from one end settles. Both tests are integer; nothing here rounds.
pub fn segment_hits_polygon(a: Point, b: Point, poly: &[Point]) -> (touch: bool)
    ensures
        touch == meets_ring(pt(a), pt(b), ring_of(poly@)),
{
    let ring = widen_ring(poly);
    touches_ring(widen(a), widen(b), &ring)
}

/// One thing the router must not run into, at its real shape.
///
/// A slanted pin is not a rectangle and cannot be decomposed into rectangles: a decomposition
/// over-covers one corner and under-covers the opposite one, so the router would refuse tracks
/// where there is no metal and offer tracks where there is.
#[derive(Debug, PartialEq, Eq)]
pub enum Obstacle {
    Rect(Rect),
    /// A closed ring, with its enclosing rectangle kept alongside as a cheap reject.
    Poly { bbox: Rect, points: Vec<Point> },
}

impl Obstacle {
    /// The enclosing rectangle.
    pub open spec fn box_of(self) -> Rect {
        match self {
            Obstacle::Rect(r) => r,
            Obstacle::Poly { bbox, points } => bbox,
        }
    }

    /// The segment touches the obstacle.
    pub open spec fn met_by(self, a: Point, b: Point) -> bool {
        match self {
            Obstacle::Rect(r) => meets(pt(a), pt(b), rt(r)),
            Obstacle::Poly { bbox, points } => meets(pt(a), pt(b), rt(bbox)) && meets_ring(
                pt(a),
                pt(b),
                ring_of(points@),
            ),
        }
    }

    /// The two obstacles have the same shape, written the same way.
    pub open spec fn like(self, other: Obstacle) -> bool {
        match (self, other) {
            (Obstacle::Rect(r), Obstacle::Rect(s)) => r == s,
            (
                Obstacle::Poly { bbox: r, points: p },
                Obstacle::Poly { bbox: s, points: q },
            ) => r == s && p@ == q@,
            _ => false,
        }
    }

    /// The enclosing rectangle.
    pub fn bbox(&self) -> (r: Rect)
        ensures
            r == self.box_of(),
    {
        match self {
            Obstacle::Rect(r) => *r,
            Obstacle::Poly { bbox, .. } => *bbox,
        }
    }

    /// Does the segment `p0`-`p1` touch this obstacle?
    ///
    /// The bounding box is a reject, never an accept: passing it only means the exact test is
    /// worth running.
    pub fn hits(&self, p0: Point, p1: Point) -> (hit: bool)
        ensures
            hit == self.met_by(p0, p1),
    {
        match self {
            Obstacle::Rect(r) => hits(p0, p1, *r),
            Obstacle::Poly { bbox, points } => {
                hits(p0, p1, *bbox) && segment_hits_polygon(p0, p1, points)
            },
        }
    }

    /// Whether the two obstacles have the same shape, written the same way.
    pub fn same(&self, other: &Obstacle) -> (same: bool)
        ensures
            same == self.like(*other),
    {
        match (self, other) {
            (Obstacle::Rect(r), Obstacle::Rect(s)) => same_rect(*r, *s),
            (
                Obstacle::Poly { bbox: r, points: p },
                Obstacle::Poly { bbox: s, points: q },
            ) => same_rect(*r, *s) && same_points(p, q),
            _ => false,
        }
    }

    /// Build from a closed ring, collapsing an axis-aligned rectangle back to the cheap form.
    ///
    /// A ring that goes from corner to corner of its own bounding box, along its sides and to all four,
    /// is that rectangle, however often it goes round, and there the rectangle test is cheaper. A ring
    /// with a slanted step, or that leaves a corner out, is kept at its real shape. Of no points at all
    /// there is nothing to keep.
    pub fn from_ring(points: Vec<Point>) -> (o: Obstacle)
        ensures
            is_rectangle(points@) ==> o == Obstacle::Rect(bounds(points@)),
            !is_rectangle(points@) ==> o == (Obstacle::Poly { bbox: bounds(points@), points }),
            collapsed(o, points@),
    {
        let b = bounds_of(&points);
        if goes_round(&points, b) {
            Obstacle::Rect(b)
        } else {
            Obstacle::Poly { bbox: b, points }
        }
    }
}

fn bounds_of(points: &Vec<Point>) -> (b: Rect)
    ensures
        b == bounds(points@),
{
    let mut b: Rect = (i32::MAX, i32::MAX, i32::MIN, i32::MIN);
    let mut i: usize = 0;
    assert(points@.take(0) =~= Seq::<Point>::empty());
    while i < points.len()
        invariant
            i <= points.len(),
            b == bounds(points@.take(i as int)),
        decreases points.len() - i,
    {
        let (x, y) = points[i];
        assert(points@.take(i + 1).drop_last() =~= points@.take(i as int));
        b = (
            if x < b.0 { x } else { b.0 },
            if y < b.1 { y } else { b.1 },
            if x > b.2 { x } else { b.2 },
            if y > b.3 { y } else { b.3 },
        );
        i += 1;
    }
    assert(points@.take(points@.len() as int) =~= points@);
    b
}

fn has_point(points: &Vec<Point>, p: Point) -> (yes: bool)
    ensures
        yes == points@.contains(p),
{
    let mut i: usize = 0;
    while i < points.len()
        invariant
            i <= points.len(),
            forall|k: int| 0 <= k < i ==> points@[k] != p,
        decreases points.len() - i,
    {
        if same_point(points[i], p) {
            assert(points@[i as int] == p);
            return true;
        }
        i += 1;
    }
    false
}

fn goes_round(points: &Vec<Point>, b: Rect) -> (yes: bool)
    requires
        b == bounds(points@),
    ensures
        yes == is_rectangle(points@),
{
    if points.len() == 0 {
        return true;
    }
    let mut i: usize = 0;
    while i < points.len()
        invariant
            i <= points.len(),
            b == bounds(points@),
            forall|k: int| 0 <= k < i ==> is_corner(#[trigger] points@[k], b),
        decreases points.len() - i,
    {
        let (x, y) = points[i];
        if !((x == b.0 || x == b.2) && (y == b.1 || y == b.3)) {
            assert(!is_corner(points@[i as int], b));
            return false;
        }
        i += 1;
    }
    if !(has_point(points, (b.0, b.1)) && has_point(points, (b.2, b.1)) && has_point(
        points,
        (b.2, b.3),
    ) && has_point(points, (b.0, b.3))) {
        return false;
    }
    let n: usize = points.len();
    i = 1;
    while i < n
        invariant
            1 <= i <= n,
            n == points.len(),
            forall|k: int| 1 <= k < i ==> straight(points@[k - 1], #[trigger] points@[k]),
        decreases n - i,
    {
        let (p, q) = (points[i - 1], points[i]);
        if p.0 != q.0 && p.1 != q.1 {
            assert(!straight(points@[i - 1], points@[i as int]));
            return false;
        }
        i += 1;
    }
    let (p, q) = (points[n - 1], points[0]);
    p.0 == q.0 || p.1 == q.1
}

impl Clone for Obstacle {
    fn clone(&self) -> (copy: Obstacle)
        ensures
            copy.like(*self),
    {
        match self {
            Obstacle::Rect(r) => Obstacle::Rect(*r),
            Obstacle::Poly { bbox, points } => Obstacle::Poly {
                bbox: *bbox,
                points: copy_points(points),
            },
        }
    }
}

/// The smallest rectangle that holds the points; of none, one that holds nothing.
pub open spec fn bounds(points: Seq<Point>) -> Rect
    decreases points.len(),
{
    if points.len() == 0 {
        (i32::MAX, i32::MAX, i32::MIN, i32::MIN)
    } else {
        let b = bounds(points.drop_last());
        let p = points.last();
        (
            if p.0 < b.0 { p.0 } else { b.0 },
            if p.1 < b.1 { p.1 } else { b.1 },
            if p.0 > b.2 { p.0 } else { b.2 },
            if p.1 > b.3 { p.1 } else { b.3 },
        )
    }
}

pub open spec fn is_corner(p: Point, r: Rect) -> bool {
    (p.0 == r.0 || p.0 == r.2) && (p.1 == r.1 || p.1 == r.3)
}

/// Every point is a corner of the rectangle that holds them.
pub open spec fn all_corners(points: Seq<Point>) -> bool {
    forall|k: int| 0 <= k < points.len() ==> is_corner(#[trigger] points[k], bounds(points))
}

/// The step from one point to the next runs along an axis, or goes nowhere.
pub open spec fn straight(p: Point, q: Point) -> bool {
    p.0 == q.0 || p.1 == q.1
}

/// The ring is an axis-aligned rectangle: every point is a corner of the box that holds them, all four
/// corners occur, and every step, the closing one too, runs along a side. So is the ring of no points.
pub open spec fn is_rectangle(points: Seq<Point>) -> bool {
    let b = bounds(points);
    points.len() > 0 ==> {
        &&& all_corners(points)
        &&& points.contains((b.0, b.1)) && points.contains((b.2, b.1))
        &&& points.contains((b.2, b.3)) && points.contains((b.0, b.3))
        &&& forall|k: int| 1 <= k < points.len() ==> straight(points[k - 1], #[trigger] points[k])
        &&& straight(points.last(), points[0])
    }
}

/// The obstacle is the ring at its real shape, in the cheap form where it is a rectangle.
pub open spec fn collapsed(o: Obstacle, points: Seq<Point>) -> bool {
    match o {
        Obstacle::Rect(r) => is_rectangle(points) && r == bounds(points),
        Obstacle::Poly { bbox, points: ring } => !is_rectangle(points) && bbox == bounds(points)
            && ring@ == points,
    }
}

/// The rectangle of [`bounds`] holds every point.
pub proof fn law_bounds_hold(points: Seq<Point>, k: int)
    requires
        0 <= k < points.len(),
    ensures
        bounds(points).0 <= points[k].0 <= bounds(points).2,
        bounds(points).1 <= points[k].1 <= bounds(points).3,
    decreases points.len(),
{
    if k < points.len() - 1 {
        law_bounds_hold(points.drop_last(), k);
    }
}

/// The rectangle of [`bounds`] is no larger than the points need: each of its sides goes through one of
/// them.
pub proof fn law_bounds_are_tight(points: Seq<Point>)
    requires
        points.len() > 0,
    ensures
        exists|k: int| 0 <= k < points.len() && (#[trigger] points[k]).0 == bounds(points).0,
        exists|k: int| 0 <= k < points.len() && (#[trigger] points[k]).1 == bounds(points).1,
        exists|k: int| 0 <= k < points.len() && (#[trigger] points[k]).0 == bounds(points).2,
        exists|k: int| 0 <= k < points.len() && (#[trigger] points[k]).1 == bounds(points).3,
    decreases points.len(),
{
    let rest = points.drop_last();
    let n = points.len() - 1;
    assert(points[n] == points.last());
    if rest.len() > 0 {
        law_bounds_are_tight(rest);
        let a = choose|k: int| 0 <= k < rest.len() && (#[trigger] rest[k]).0 == bounds(rest).0;
        let b = choose|k: int| 0 <= k < rest.len() && (#[trigger] rest[k]).1 == bounds(rest).1;
        let c = choose|k: int| 0 <= k < rest.len() && (#[trigger] rest[k]).0 == bounds(rest).2;
        let d = choose|k: int| 0 <= k < rest.len() && (#[trigger] rest[k]).1 == bounds(rest).3;
        assert(points[a] == rest[a] && points[b] == rest[b] && points[c] == rest[c] && points[d]
            == rest[d]);
    } else {
        assert(bounds(rest) == (i32::MAX, i32::MAX, i32::MIN, i32::MIN));
        assert(points[n].0 == bounds(points).0 && points[n].1 == bounds(points).1);
        assert(points[n].0 == bounds(points).2 && points[n].1 == bounds(points).3);
    }
}

/// The point `j` lies strictly between the points `i` and `k`, by its x or by its y.
pub open spec fn between(points: Seq<Point>, i: int, j: int, k: int) -> bool {
    (points[i].0 < points[j].0 && points[j].0 < points[k].0) || (points[i].1 < points[j].1
        && points[j].1 < points[k].1)
}

/// No coordinate lies strictly between two others.
pub open spec fn two_sided(points: Seq<Point>) -> bool {
    forall|i: int, j: int, k: int|
        0 <= i < points.len() && 0 <= j < points.len() && 0 <= k < points.len()
            ==> !#[trigger] between(points, i, j, k)
}

/// The ring has a point where the x of one of its points meets the y of another.
pub open spec fn meets_at(points: Seq<Point>, i: int, j: int) -> bool {
    points.contains((points[i].0, points[j].1))
}

/// Wherever an x and a y of the ring meet, the ring has a point.
pub open spec fn full(points: Seq<Point>) -> bool {
    forall|i: int, j: int|
        0 <= i < points.len() && 0 <= j < points.len() ==> #[trigger] meets_at(points, i, j)
}

/// Every step of the ring, back to the start too, keeps the x or the y.
pub open spec fn along_the_axes(points: Seq<Point>) -> bool {
    &&& forall|k: int|
        1 <= k < points.len() ==> points[k - 1].0 == (#[trigger] points[k]).0 || points[k - 1].1
            == points[k].1
    &&& points.last().0 == points[0].0 || points.last().1 == points[0].1
}

proof fn lemma_rectangle_is_full(points: Seq<Point>)
    requires
        points.len() > 0,
        is_rectangle(points),
    ensures
        two_sided(points) && full(points) && along_the_axes(points),
{
    let r = bounds(points);
    assert forall|i: int, j: int| 0 <= i < points.len() && 0 <= j < points.len() implies #[trigger]
    meets_at(points, i, j) by {
        assert(is_corner(points[i], r) && is_corner(points[j], r));
    }
    assert forall|i: int, j: int, k: int|
        0 <= i < points.len() && 0 <= j < points.len() && 0 <= k < points.len()
            implies !#[trigger] between(points, i, j, k) by {
        assert(is_corner(points[j], r));
        law_bounds_hold(points, i);
        law_bounds_hold(points, k);
    }
    assert forall|k: int| 1 <= k < points.len() implies points[k - 1].0 == (#[trigger] points[k]).0
        || points[k - 1].1 == points[k].1 by {
        assert(straight(points[k - 1], points[k]));
    }
}

proof fn lemma_full_is_rectangle(points: Seq<Point>)
    requires
        points.len() > 0,
        two_sided(points) && full(points) && along_the_axes(points),
    ensures
        is_rectangle(points),
{
    let r = bounds(points);
    law_bounds_are_tight(points);
    let a = choose|k: int| 0 <= k < points.len() && (#[trigger] points[k]).0 == r.0;
    let b = choose|k: int| 0 <= k < points.len() && (#[trigger] points[k]).1 == r.1;
    let c = choose|k: int| 0 <= k < points.len() && (#[trigger] points[k]).0 == r.2;
    let d = choose|k: int| 0 <= k < points.len() && (#[trigger] points[k]).1 == r.3;
    assert forall|k: int| 0 <= k < points.len() implies is_corner(#[trigger] points[k], r) by {
        law_bounds_hold(points, k);
        assert(!between(points, a, k, c) && !between(points, b, k, d));
    }
    assert(meets_at(points, a, b) && meets_at(points, c, b));
    assert(meets_at(points, c, d) && meets_at(points, a, d));
    assert forall|k: int| 1 <= k < points.len() implies straight(
        points[k - 1],
        #[trigger] points[k],
    ) by {}
}

/// A ring is a rectangle exactly where its points have no more than two x and two y, it has a point
/// wherever an x and a y of it meet, and every step of it, back to the start too, keeps one of the
/// two.
pub proof fn law_what_is_a_rectangle(points: Seq<Point>)
    requires
        points.len() > 0,
    ensures
        is_rectangle(points) <==> two_sided(points) && full(points) && along_the_axes(points),
{
    if is_rectangle(points) {
        lemma_rectangle_is_full(points);
    }
    if two_sided(points) && full(points) && along_the_axes(points) {
        lemma_full_is_rectangle(points);
    }
}

fn same_rect(a: Rect, b: Rect) -> (same: bool)
    ensures
        same == (a == b),
{
    a.0 == b.0 && a.1 == b.1 && a.2 == b.2 && a.3 == b.3
}

fn same_points(a: &Vec<Point>, b: &Vec<Point>) -> (same: bool)
    ensures
        same == (a@ == b@),
{
    if a.len() != b.len() {
        return false;
    }
    let mut i: usize = 0;
    while i < a.len()
        invariant
            i <= a.len(),
            a.len() == b.len(),
            forall|k: int| 0 <= k < i ==> a@[k] == b@[k],
        decreases a.len() - i,
    {
        if !same_point(a[i], b[i]) {
            return false;
        }
        i += 1;
    }
    assert(a@ =~= b@);
    true
}

/// The segment touches one of the obstacles.
pub open spec fn any_met(obstructions: Seq<Obstacle>, a: Point, b: Point) -> bool {
    exists|i: int| 0 <= i < obstructions.len() && (#[trigger] obstructions[i]).met_by(a, b)
}

/// Is this segment blocked by anything?
pub fn blocked(p0: Point, p1: Point, obstructions: &[Obstacle]) -> (b: bool)
    ensures
        b == any_met(obstructions@, p0, p1),
{
    let mut i: usize = 0;
    while i < obstructions.len()
        invariant
            i <= obstructions.len(),
            forall|k: int| 0 <= k < i ==> !(#[trigger] obstructions@[k]).met_by(p0, p1),
        decreases obstructions.len() - i,
    {
        if obstructions[i].hits(p0, p1) {
            return true;
        }
        i += 1;
    }
    false
}

/// Does an existing special wire obstruct the router?
///
/// Wires of the nets being routed that are not fixed are about to be removed, so they do not
/// obstruct; a fixed wire is kept and obstructs its own net's router, and every wire of every other
/// net obstructs unconditionally.
pub fn swire_obstructs(is_routing_net: bool, swire_is_fixed: bool) -> (o: bool)
    ensures
        o <==> !is_routing_net || swire_is_fixed,
{
    !(is_routing_net && !swire_is_fixed)
}

} // verus!
