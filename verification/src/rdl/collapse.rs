//! What becomes of a ring that is an axis-aligned rectangle.

use crate::geom::{meets, pt, rt, segments_meet, side, Point};
use crate::rdl::obstacle::{
    bounds, collapsed, inside, is_corner, is_rectangle, law_bounds_hold, meets_edge, meets_ring,
    ring_of, straight, Obstacle,
};
use crate::rdl::touch::{
    law_hits_is_shared_point, law_reject_is_sound, law_touch_is_symmetric, lemma_from_outside,
    lemma_on_side, lemma_shares_meet, lemma_swapped, meets_side, reaches, shares,
};
use vstd::prelude::*;

verus! {

/// The step runs along the upright line at `x`.
pub open spec fn passes(p: Point, q: Point, x: i32) -> bool {
    p.0 == x && q.0 == x && p.1 != q.1
}

/// An odd number of the steps run along the upright line at `x`.
pub open spec fn odd_passes(points: Seq<Point>, x: i32) -> bool
    decreases points.len(),
{
    if points.len() < 2 {
        false
    } else {
        odd_passes(points.drop_last(), x) != passes(points[points.len() - 2], points.last(), x)
    }
}

/// A step of the ring runs along the upright line at `x`.
pub open spec fn walks_upright(points: Seq<Point>, x: i32) -> bool {
    exists|k: int| 0 <= k < points.len() - 1 && passes(#[trigger] points[k], points[k + 1], x)
}

/// A step of the ring runs along the level line at `y`.
pub open spec fn walks_level(points: Seq<Point>, y: i32) -> bool {
    exists|k: int|
        0 <= k < points.len() - 1 && crosses_over(#[trigger] points[k], points[k + 1], y)
}

/// The ring runs along all four sides of its box.
pub open spec fn walled(points: Seq<Point>) -> bool {
    let b = bounds(points);
    &&& walks_upright(points, b.0) && walks_upright(points, b.2)
    &&& walks_level(points, b.1) && walks_level(points, b.3)
}

/// The box has no inside.
pub open spec fn flat(points: Seq<Point>) -> bool {
    bounds(points).0 == bounds(points).2 || bounds(points).1 == bounds(points).3
}

/// The point lies within the box, on none of its sides.
pub open spec fn within(p: Point, points: Seq<Point>) -> bool {
    let b = bounds(points);
    b.0 < p.0 < b.2 && b.1 < p.1 < b.3
}

/// The step runs along the level line at `y`.
pub open spec fn crosses_over(p: Point, q: Point, y: i32) -> bool {
    p.1 == y && q.1 == y && p.0 != q.0
}

/// An odd number of the steps run along the level line at `y`.
spec fn odd_level(points: Seq<Point>, y: i32) -> bool
    decreases points.len(),
{
    if points.len() < 2 {
        false
    } else {
        odd_level(points.drop_last(), y) != crosses_over(
            points[points.len() - 2],
            points.last(),
            y,
        )
    }
}

/// Along a walk from corner to corner, how often each side is passed tells where the walk ends.
proof fn lemma_rounds(points: Seq<Point>, r: (i32, i32, i32, i32))
    requires
        points.len() > 0,
        r.0 < r.2,
        r.1 < r.3,
        forall|k: int| 0 <= k < points.len() ==> is_corner(#[trigger] points[k], r),
        forall|k: int| 1 <= k < points.len() ==> straight(points[k - 1], #[trigger] points[k]),
    ensures
        (odd_passes(points, r.0) != odd_passes(points, r.2)) == (points[0].1 != points.last().1),
        (odd_level(points, r.1) != odd_level(points, r.3)) == (points[0].0 != points.last().0),
        (odd_passes(points, r.2) != odd_level(points, r.3)) == ((points[0] == (r.2, r.3)) != (
        points.last() == (r.2, r.3))),
    decreases points.len(),
{
    if points.len() >= 2 {
        let head = points.drop_last();
        assert forall|k: int| 0 <= k < head.len() implies is_corner(#[trigger] head[k], r) by {
            assert(points[k] == head[k]);
        }
        assert forall|k: int| 1 <= k < head.len() implies straight(
            head[k - 1],
            #[trigger] head[k],
        ) by {
            assert(points[k] == head[k]);
        }
        lemma_rounds(head, r);
        let (p, q) = (points[points.len() - 2], points.last());
        assert(is_corner(p, r) && is_corner(q, r));
        assert(points[points.len() - 1] == q);
        assert(straight(p, q));
        assert(head.last() == p && head[0] == points[0]);
    }
}

/// A line that is passed an odd number of times is passed.
proof fn lemma_odd_passes(points: Seq<Point>, x: i32)
    requires
        odd_passes(points, x),
    ensures
        walks_upright(points, x),
    decreases points.len(),
{
    let head = points.drop_last();
    if odd_passes(head, x) {
        lemma_odd_passes(head, x);
        let k = choose|k: int|
            0 <= k < head.len() - 1 && passes(#[trigger] head[k], head[k + 1], x);
        assert(points[k] == head[k] && points[k + 1] == head[k + 1]);
    } else {
        let k = points.len() - 2;
        assert(passes(points[k], points[k + 1], x));
    }
}

proof fn lemma_odd_level(points: Seq<Point>, y: i32)
    requires
        odd_level(points, y),
    ensures
        walks_level(points, y),
    decreases points.len(),
{
    let head = points.drop_last();
    if odd_level(head, y) {
        lemma_odd_level(head, y);
        let k = choose|k: int|
            0 <= k < head.len() - 1 && crosses_over(#[trigger] head[k], head[k + 1], y);
        assert(points[k] == head[k] && points[k + 1] == head[k + 1]);
    } else {
        let k = points.len() - 2;
        assert(crosses_over(points[k], points[k + 1], y));
    }
}

/// A closed ring that passes one side an odd number of times runs along all four.
proof fn lemma_odd_is_walled(points: Seq<Point>)
    requires
        is_rectangle(points),
        points.len() > 0,
        points[0] == points.last(),
        !flat(points),
        odd_passes(points, bounds(points).2),
    ensures
        walled(points),
{
    let r = bounds(points);
    law_bounds_hold(points, 0);
    lemma_rounds(points, r);
    lemma_odd_passes(points, r.0);
    lemma_odd_passes(points, r.2);
    lemma_odd_level(points, r.1);
    lemma_odd_level(points, r.3);
}

/// A segment that meets a side of the rectangle meets the ring that runs along it.
proof fn lemma_side_is_edge(a: (int, int), b: (int, int), points: Seq<Point>)
    requires
        is_rectangle(points),
        points.len() > 0,
        walled(points),
        bounds(points).0 < bounds(points).2,
        bounds(points).1 < bounds(points).3,
        meets_side(a, b, rt(bounds(points))),
    ensures
        meets_edge(a, b, ring_of(points)),
{
    let r = bounds(points);
    let w = rt(r);
    let ring = ring_of(points);
    let (c0, c1) = ((w.0, w.1), (w.2, w.1));
    let (c2, c3) = ((w.2, w.3), (w.0, w.3));
    lemma_swapped(a, b, c0, c1);
    lemma_swapped(a, b, c1, c2);
    lemma_swapped(a, b, c2, c3);
    lemma_swapped(a, b, c3, c0);
    let k = if segments_meet(a, b, c0, c1) {
        choose|k: int|
            0 <= k < points.len() - 1 && crosses_over(#[trigger] points[k], points[k + 1], r.1)
    } else if segments_meet(a, b, c1, c2) {
        choose|k: int|
            0 <= k < points.len() - 1 && passes(#[trigger] points[k], points[k + 1], r.2)
    } else if segments_meet(a, b, c2, c3) {
        choose|k: int|
            0 <= k < points.len() - 1 && crosses_over(#[trigger] points[k], points[k + 1], r.3)
    } else {
        choose|k: int|
            0 <= k < points.len() - 1 && passes(#[trigger] points[k], points[k + 1], r.0)
    };
    assert(is_corner(points[k], r) && is_corner(points[k + 1], r));
    assert(ring[k] == pt(points[k]) && ring[k + 1] == pt(points[k + 1]));
    assert(segments_meet(a, b, ring[k], ring[k + 1]));
}

/// The ray from a point strictly inside crosses the right side alone, each time that it is passed.
proof fn lemma_ray(p: (int, int), points: Seq<Point>, r: (i32, i32, i32, i32))
    requires
        r.0 < p.0 < r.2,
        r.1 < p.1 < r.3,
        forall|k: int| 0 <= k < points.len() ==> is_corner(#[trigger] points[k], r),
        forall|k: int| 1 <= k < points.len() ==> straight(points[k - 1], #[trigger] points[k]),
    ensures
        inside(p, ring_of(points)) == odd_passes(points, r.2),
    decreases points.len(),
{
    if points.len() >= 2 {
        let head = points.drop_last();
        assert forall|k: int| 0 <= k < head.len() implies is_corner(#[trigger] head[k], r) by {
            assert(points[k] == head[k]);
        }
        assert forall|k: int| 1 <= k < head.len() implies straight(
            head[k - 1],
            #[trigger] head[k],
        ) by {
            assert(points[k] == head[k]);
        }
        lemma_ray(p, head, r);
        let ring = ring_of(points);
        assert(ring.drop_last() =~= ring_of(head));
        let (a, b) = (points[points.len() - 2], points.last());
        assert(is_corner(a, r) && is_corner(b, r));
        assert(points[points.len() - 1] == b);
        assert(straight(a, b));
        let (u, v) = (pt(a), pt(b));
        assert(ring[ring.len() - 2] == u && ring.last() == v);
        if a.1 != b.1 {
            let s = side(u, v, p);
            assert(s == (v.0 - u.0) * (p.1 - u.1) - (v.1 - u.1) * (p.0 - u.0));
            if a.0 == r.2 {
                assert(v.1 > u.1 ==> s > 0) by (nonlinear_arith)
                    requires
                        s == (v.0 - u.0) * (p.1 - u.1) - (v.1 - u.1) * (p.0 - u.0),
                        v.0 == u.0,
                        p.0 < u.0,
                ;
                assert(v.1 < u.1 ==> s < 0) by (nonlinear_arith)
                    requires
                        s == (v.0 - u.0) * (p.1 - u.1) - (v.1 - u.1) * (p.0 - u.0),
                        v.0 == u.0,
                        p.0 < u.0,
                ;
            } else {
                assert(v.1 > u.1 ==> s < 0) by (nonlinear_arith)
                    requires
                        s == (v.0 - u.0) * (p.1 - u.1) - (v.1 - u.1) * (p.0 - u.0),
                        v.0 == u.0,
                        p.0 > u.0,
                ;
                assert(v.1 < u.1 ==> s > 0) by (nonlinear_arith)
                    requires
                        s == (v.0 - u.0) * (p.1 - u.1) - (v.1 - u.1) * (p.0 - u.0),
                        v.0 == u.0,
                        p.0 > u.0,
                ;
            }
        }
    } else {
        assert(ring_of(points).len() < 2);
    }
}

/// A rectangle without width or height is the segment between its corners.
proof fn lemma_flat(a: (int, int), b: (int, int), r: (int, int, int, int))
    requires
        r.0 <= r.2,
        r.1 <= r.3,
        r.0 == r.2 || r.1 == r.3,
        meets(a, b, r),
    ensures
        segments_meet(a, b, (r.0, r.1), (r.2, r.3)),
{
    law_hits_is_shared_point(a, b, r);
    let (m, n) = choose|m: int, n: int| #[trigger] reaches(a, b, r, m, n);
    let (x, y) = (a.0 * n + (b.0 - a.0) * m, a.1 * n + (b.1 - a.1) * m);
    // The point lies on the flat rectangle, at a share of the way along it.
    let (k, l) = if r.0 == r.2 && r.1 == r.3 {
        (0int, 1int)
    } else if r.0 == r.2 {
        (y - r.1 * n, r.3 - r.1)
    } else {
        (x - r.0 * n, r.2 - r.0)
    };
    let (c, d) = ((r.0, r.1), (r.2, r.3));
    let (big, mm, kk) = (n * l, m * l, k);
    assert(0 <= mm <= big && 0 < big) by (nonlinear_arith)
        requires
            0 <= m <= n,
            0 < n,
            0 < l,
            mm == m * l,
            big == n * l,
    ;
    if r.0 == r.2 && r.1 == r.3 {
        assert(shares(a, b, c, d, m, 0, n)) by {
            assert(x == r.0 * n && y == r.1 * n);
            assert((d.0 - c.0) * 0 == 0 && (d.1 - c.1) * 0 == 0) by (nonlinear_arith);
        }
        lemma_shares_meet(a, b, c, d, m, 0, n);
    } else {
        assert(0 <= kk <= big) by (nonlinear_arith)
            requires
                kk == k,
                big == n * l,
                r.0 == r.2 ==> k == y - r.1 * n && l == r.3 - r.1,
                r.0 != r.2 ==> k == x - r.0 * n && l == r.2 - r.0,
                r.1 * n <= y <= r.3 * n,
                r.0 * n <= x <= r.2 * n,
        ;
        assert(a.0 * big + (b.0 - a.0) * mm == x * l) by (nonlinear_arith)
            requires
                big == n * l,
                mm == m * l,
                x == a.0 * n + (b.0 - a.0) * m,
        ;
        assert(a.1 * big + (b.1 - a.1) * mm == y * l) by (nonlinear_arith)
            requires
                big == n * l,
                mm == m * l,
                y == a.1 * n + (b.1 - a.1) * m,
        ;
        if r.0 == r.2 {
            assert(x == r.0 * n);
            assert(x * l == r.0 * big + (r.2 - r.0) * kk) by (nonlinear_arith)
                requires
                    x == r.0 * n,
                    big == n * l,
                    r.2 == r.0,
            ;
            assert(y * l == r.1 * big + (r.3 - r.1) * kk) by (nonlinear_arith)
                requires
                    kk == y - r.1 * n,
                    l == r.3 - r.1,
                    big == n * l,
            ;
        } else {
            assert(y == r.1 * n);
            assert(y * l == r.1 * big + (r.3 - r.1) * kk) by (nonlinear_arith)
                requires
                    y == r.1 * n,
                    big == n * l,
                    r.3 == r.1,
            ;
            assert(x * l == r.0 * big + (r.2 - r.0) * kk) by (nonlinear_arith)
                requires
                    kk == x - r.0 * n,
                    l == r.2 - r.0,
                    big == n * l,
            ;
        }
        assert(shares(a, b, c, d, mm, kk, big));
        lemma_shares_meet(a, b, c, d, mm, kk, big);
    }
}

/// A flat ring has a step from one end to the other, or stays where it is.
proof fn lemma_flat_step(points: Seq<Point>, p: Point, q: Point)
    requires
        points.len() >= 2,
        forall|k: int| 0 <= k < points.len() ==> (#[trigger] points[k]) == p || points[k] == q,
        points.contains(p),
        points.contains(q),
    ensures
        exists|k: int|
            0 <= k < points.len() - 1 && ((#[trigger] points[k] == p && points[k + 1] == q) || (
            points[k] == q && points[k + 1] == p)),
    decreases points.len(),
{
    let n = points.len() as int;
    if points[0] == points[1] {
        if n == 2 {
            assert(p == q) by {
                let i = choose|i: int| 0 <= i < points.len() && points[i] == p;
                let j = choose|j: int| 0 <= j < points.len() && points[j] == q;
                assert(points[i] == points[j]);
            }
            assert(points[0] == p && points[1] == q);
        } else {
            let rest = points.drop_first();
            assert forall|k: int| 0 <= k < rest.len() implies (#[trigger] rest[k]) == p || rest[k]
                == q by {
                assert(points[k + 1] == rest[k]);
            }
            assert(rest[0] == points[0]);
            let i = choose|i: int| 0 <= i < points.len() && points[i] == p;
            assert(rest[if i == 0 { 0 } else { i - 1 }] == p);
            let j = choose|j: int| 0 <= j < points.len() && points[j] == q;
            assert(rest[if j == 0 { 0 } else { j - 1 }] == q);
            lemma_flat_step(rest, p, q);
            let k = choose|k: int|
                0 <= k < rest.len() - 1 && ((#[trigger] rest[k] == p && rest[k + 1] == q) || (rest[k]
                    == q && rest[k + 1] == p));
            assert(points[k + 1] == rest[k] && points[k + 1 + 1] == rest[k + 1]);
        }
    } else {
        assert(points[0] == p || points[0] == q);
        assert(points[1] == p || points[1] == q);
        assert((points[0] == p && points[1] == q) || (points[0] == q && points[1] == p));
    }
}

/// The rectangle a ring collapses to touches what the ring touches.
proof fn lemma_rectangle_is_its_ring(a: Point, b: Point, points: Seq<Point>)
    requires
        points.len() >= 2,
        points[0] == points.last(),
        is_rectangle(points),
        meets(pt(a), pt(b), rt(bounds(points))),
        flat(points) || odd_passes(points, bounds(points).2) || (walled(points) && !(within(
            a,
            points,
        ) && within(b, points))),
    ensures
        meets_ring(pt(a), pt(b), ring_of(points)),
{
    let r = bounds(points);
    let (p, q, w) = (pt(a), pt(b), rt(r));
    let ring = ring_of(points);
    law_bounds_hold(points, 0);
    if r.0 < r.2 && r.1 < r.3 {
        if odd_passes(points, r.2) {
            lemma_odd_is_walled(points);
        }
        if !(w.0 <= p.0 <= w.2 && w.1 <= p.1 <= w.3) {
            lemma_from_outside(p, q, w);
            lemma_side_is_edge(p, q, points);
        } else if p.0 == w.0 || p.0 == w.2 || p.1 == w.1 || p.1 == w.3 {
            lemma_on_side(p, q, w);
            lemma_side_is_edge(p, q, points);
        } else if odd_passes(points, r.2) {
            lemma_ray(p, points, r);
        } else {
            lemma_out_of_box(p, q, w);
            lemma_side_is_edge(p, q, points);
        }
    } else {
        lemma_flat(p, q, w);
        let (c, d) = ((r.0, r.1), (r.2, r.3));
        assert forall|k: int| 0 <= k < points.len() implies (#[trigger] points[k]) == c || points[k]
            == d by {
            assert(is_corner(points[k], r));
        }
        lemma_flat_step(points, c, d);
        let k = choose|k: int|
            0 <= k < points.len() - 1 && ((#[trigger] points[k] == c && points[k + 1] == d) || (
            points[k] == d && points[k + 1] == c));
        lemma_swapped(p, q, (w.0, w.1), (w.2, w.3));
        assert(ring[k] == pt(points[k]) && ring[k + 1] == pt(points[k + 1]));
        assert(segments_meet(p, q, ring[k], ring[k + 1]));
    }
}

/// A segment that starts within a rectangle and ends on a side of it or outside meets a side.
proof fn lemma_out_of_box(p: (int, int), q: (int, int), r: (int, int, int, int))
    requires
        r.0 < p.0 < r.2,
        r.1 < p.1 < r.3,
        !(r.0 < q.0 < r.2 && r.1 < q.1 < r.3),
    ensures
        meets_side(p, q, r),
{
    let (c0, c1) = ((r.0, r.1), (r.2, r.1));
    let (c2, c3) = ((r.2, r.3), (r.0, r.3));
    law_touch_is_symmetric(p, q, c0, c1);
    law_touch_is_symmetric(p, q, c1, c2);
    law_touch_is_symmetric(p, q, c2, c3);
    law_touch_is_symmetric(p, q, c3, c0);
    if r.0 <= q.0 <= r.2 && r.1 <= q.1 <= r.3 {
        lemma_on_side(q, p, r);
    } else {
        assert(meets(q, p, r)) by {
            law_hits_is_shared_point(q, p, r);
            assert(reaches(q, p, r, 1, 1));
        }
        lemma_from_outside(q, p, r);
    }
}

/// Collapsing loses no hit: whatever the closed ring, the obstacle that is built from it is touched by
/// every segment that touches the ring.
pub proof fn law_collapsing_misses_nothing(o: Obstacle, points: Seq<Point>, p0: Point, p1: Point)
    requires
        collapsed(o, points),
        points.len() > 0,
        points[0] == points.last(),
        meets_ring(pt(p0), pt(p1), ring_of(points)),
    ensures
        o.met_by(p0, p1),
{
    law_reject_is_sound(p0, p1, points);
}

/// Collapsing keeps hits: the obstacle that is built from a closed ring is touched by exactly the
/// segments that touch the ring.
///
/// A ring along the sides of its box that goes round an even number of times, or back and forth,
/// encloses nothing by the count of its crossings, while the rectangle it collapses to is solid. Of
/// such a ring the law speaks where it runs along all four sides, of the segments that do not lie
/// within.
pub proof fn law_collapsing_keeps_hits(o: Obstacle, points: Seq<Point>, p0: Point, p1: Point)
    requires
        collapsed(o, points),
        points.len() >= 2,
        points[0] == points.last(),
        !is_rectangle(points) || flat(points) || odd_passes(points, bounds(points).2) || (walled(
            points,
        ) && !(within(p0, points) && within(p1, points))),
    ensures
        o.met_by(p0, p1) == meets_ring(pt(p0), pt(p1), ring_of(points)),
{
    if meets_ring(pt(p0), pt(p1), ring_of(points)) {
        law_reject_is_sound(p0, p1, points);
    }
    if is_rectangle(points) && meets(pt(p0), pt(p1), rt(bounds(points))) {
        lemma_rectangle_is_its_ring(p0, p1, points);
    }
}

} // verus!
