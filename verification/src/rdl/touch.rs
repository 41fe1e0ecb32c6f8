//! What touching means: a segment and a shape touch exactly where they share a point.

use crate::geom::{max, meets, min, on_segment, pt, rt, segments_meet, side, Point};
use crate::rdl::obstacle::{
    bounds, crosses_ray, inside, law_bounds_hold, meets_edge, meets_ring, ring_of,
};
use vstd::prelude::*;

verus! {

/// The point `m / n` of the way from `p` to `q` lies in the closed rectangle.
pub open spec fn reaches(
    p: (int, int),
    q: (int, int),
    r: (int, int, int, int),
    m: int,
    n: int,
) -> bool {
    &&& 0 <= m <= n && 0 < n
    &&& r.0 * n <= p.0 * n + (q.0 - p.0) * m <= r.2 * n
    &&& r.1 * n <= p.1 * n + (q.1 - p.1) * m <= r.3 * n
}

/// A segment touches a rectangle exactly where some point of the one lies in the other, its bounds
/// included.
pub proof fn law_hits_is_shared_point(p: (int, int), q: (int, int), r: (int, int, int, int))
    requires
        r.0 <= r.2,
        r.1 <= r.3,
    ensures
        meets(p, q, r) <==> exists|m: int, n: int| #[trigger] reaches(p, q, r, m, n),
{
    if meets(p, q, r) {
        lemma_point(p, q, r);
    }
    if exists|m: int, n: int| #[trigger] reaches(p, q, r, m, n) {
        let (m, n) = choose|m: int, n: int| #[trigger] reaches(p, q, r, m, n);
        lemma_reached(p, q, r, m, n);
    }
}

/// A point `m / n` of the way from `a` to `b`, for whole numbers, lies between them.
proof fn lemma_between(a: int, b: int, m: int, n: int)
    requires
        0 <= m <= n,
        0 < n,
    ensures
        min(a, b) * n <= a * n + (b - a) * m <= max(a, b) * n,
{
    if a <= b {
        assert(a * n <= a * n + (b - a) * m <= b * n) by (nonlinear_arith)
            requires
                0 <= m <= n,
                a <= b,
        ;
    } else {
        assert(b * n <= a * n + (b - a) * m <= a * n) by (nonlinear_arith)
            requires
                0 <= m <= n,
                a > b,
        ;
    }
}

/// Where a point of the rectangle lies on a line, the corners do not all lie on one side of it.
proof fn lemma_corners(
    p: (int, int),
    q: (int, int),
    r: (int, int, int, int),
    x: int,
    y: int,
    n: int,
)
    requires
        0 < n,
        r.0 * n <= x <= r.2 * n,
        r.1 * n <= y <= r.3 * n,
        (q.0 - p.0) * (y - p.1 * n) == (q.1 - p.1) * (x - p.0 * n),
    ensures
        ({
            let s0 = side(p, q, (r.0, r.1));
            let s1 = side(p, q, (r.2, r.1));
            let s2 = side(p, q, (r.0, r.3));
            let s3 = side(p, q, (r.2, r.3));
            !(s0 > 0 && s1 > 0 && s2 > 0 && s3 > 0) && !(s0 < 0 && s1 < 0 && s2 < 0 && s3 < 0)
        }),
{
    let (dx, dy) = (q.0 - p.0, q.1 - p.1);
    // The corners in which the line's left and right sides reach furthest.
    let (near, far) = if dx >= 0 { (r.1, r.3) } else { (r.3, r.1) };
    let (left, right) = if dy >= 0 { (r.0, r.2) } else { (r.2, r.0) };
    assert(dx * (near * n - p.1 * n) <= dx * (y - p.1 * n) <= dx * (far * n - p.1 * n))
        by (nonlinear_arith)
        requires
            dx >= 0 ==> near * n <= y <= far * n,
            dx < 0 ==> far * n <= y <= near * n,
    ;
    assert(dy * (left * n - p.0 * n) <= dy * (x - p.0 * n) <= dy * (right * n - p.0 * n))
        by (nonlinear_arith)
        requires
            dy >= 0 ==> left * n <= x <= right * n,
            dy < 0 ==> right * n <= x <= left * n,
    ;
    let least = side(p, q, (right, near));
    let most = side(p, q, (left, far));
    assert(least * n == dx * (near * n - p.1 * n) - dy * (right * n - p.0 * n))
        by (nonlinear_arith)
        requires
            least == dx * (near - p.1) - dy * (right - p.0),
    ;
    assert(most * n == dx * (far * n - p.1 * n) - dy * (left * n - p.0 * n)) by (nonlinear_arith)
        requires
            most == dx * (far - p.1) - dy * (left - p.0),
    ;
    assert(least <= 0) by (nonlinear_arith)
        requires
            least * n <= 0,
            n > 0,
    ;
    assert(most >= 0) by (nonlinear_arith)
        requires
            most * n >= 0,
            n > 0,
    ;
}

/// A shared point makes the segment and the rectangle meet.
proof fn lemma_reached(p: (int, int), q: (int, int), r: (int, int, int, int), m: int, n: int)
    requires
        reaches(p, q, r, m, n),
    ensures
        meets(p, q, r),
{
    lemma_between(p.0, q.0, m, n);
    lemma_between(p.1, q.1, m, n);
    let (x, y) = (p.0 * n + (q.0 - p.0) * m, p.1 * n + (q.1 - p.1) * m);
    assert(max(p.0, q.0) >= r.0 && min(p.0, q.0) <= r.2) by (nonlinear_arith)
        requires
            0 < n,
            r.0 * n <= max(p.0, q.0) * n,
            min(p.0, q.0) * n <= r.2 * n,
    ;
    assert(max(p.1, q.1) >= r.1 && min(p.1, q.1) <= r.3) by (nonlinear_arith)
        requires
            0 < n,
            r.1 * n <= max(p.1, q.1) * n,
            min(p.1, q.1) * n <= r.3 * n,
    ;
    let (dx, dy) = (q.0 - p.0, q.1 - p.1);
    assert(dx * (y - p.1 * n) == dy * (x - p.0 * n)) by (nonlinear_arith)
        requires
            x - p.0 * n == dx * m,
            y - p.1 * n == dy * m,
    ;
    lemma_corners(p, q, r, x, y, n);
}

/// The share of the way at which a rising segment enters a rectangle that it meets.
proof fn lemma_rising(
    p0: int,
    p1: int,
    dx: int,
    dy: int,
    xl: int,
    xh: int,
    yl: int,
    yh: int,
) -> (share: (int, int))
    requires
        dx > 0,
        dy > 0,
        xl <= xh,
        yl <= yh,
        xl <= p0 + dx,
        p0 <= xh,
        yl <= p1 + dy,
        p1 <= yh,
        dx * (yh - p1) - dy * (xl - p0) >= 0,
        dx * (yl - p1) - dy * (xh - p0) <= 0,
    ensures
        0 <= share.0 <= share.1,
        0 < share.1,
        xl * share.1 <= p0 * share.1 + dx * share.0 <= xh * share.1,
        yl * share.1 <= p1 * share.1 + dy * share.0 <= yh * share.1,
{
    let n = dx * dy;
    let m1 = (xl - p0) * dy;
    let m2 = (yl - p1) * dx;
    let m = max(0, max(m1, m2));
    assert(n > 0) by (nonlinear_arith)
        requires
            n == dx * dy,
            dx > 0,
            dy > 0,
    ;
    assert(m1 <= n && m2 <= n) by (nonlinear_arith)
        requires
            n == dx * dy,
            m1 == (xl - p0) * dy,
            m2 == (yl - p1) * dx,
            xl - p0 <= dx,
            yl - p1 <= dy,
            dx > 0,
            dy > 0,
    ;
    assert(dx * m >= n * (xl - p0)) by (nonlinear_arith)
        requires
            m >= (xl - p0) * dy,
            n == dx * dy,
            dx > 0,
    ;
    assert(dy * m >= n * (yl - p1)) by (nonlinear_arith)
        requires
            m >= (yl - p1) * dx,
            n == dx * dy,
            dy > 0,
    ;
    assert(dx * m <= n * (xh - p0)) by {
        if m == 0 {
            assert(dx * m <= n * (xh - p0)) by (nonlinear_arith)
                requires
                    m == 0,
                    n > 0,
                    xh >= p0,
            ;
        } else if m == m1 {
            assert(dx * m <= n * (xh - p0)) by (nonlinear_arith)
                requires
                    m == (xl - p0) * dy,
                    n == dx * dy,
                    n > 0,
                    xl <= xh,
            ;
        } else {
            assert(dx * m <= n * (xh - p0)) by (nonlinear_arith)
                requires
                    m == (yl - p1) * dx,
                    n == dx * dy,
                    dx > 0,
                    dx * (yl - p1) <= dy * (xh - p0),
            ;
        }
    }
    assert(dy * m <= n * (yh - p1)) by {
        if m == 0 {
            assert(dy * m <= n * (yh - p1)) by (nonlinear_arith)
                requires
                    m == 0,
                    n > 0,
                    yh >= p1,
            ;
        } else if m == m2 {
            assert(dy * m <= n * (yh - p1)) by (nonlinear_arith)
                requires
                    m == (yl - p1) * dx,
                    n == dx * dy,
                    n > 0,
                    yl <= yh,
            ;
        } else {
            assert(dy * m <= n * (yh - p1)) by (nonlinear_arith)
                requires
                    m == (xl - p0) * dy,
                    n == dx * dy,
                    dy > 0,
                    dy * (xl - p0) <= dx * (yh - p1),
            ;
        }
    }
    assert(n * (xl - p0) == xl * n - p0 * n && n * (xh - p0) == xh * n - p0 * n && n * (yl - p1)
        == yl * n - p1 * n && n * (yh - p1) == yh * n - p1 * n) by (nonlinear_arith);
    (m, n)
}

/// A straight run along one axis enters the span that it overlaps.
proof fn lemma_straight(p: int, q: int, lo: int, hi: int) -> (share: (int, int))
    requires
        lo <= hi,
        max(p, q) >= lo,
        min(p, q) <= hi,
    ensures
        0 <= share.0 <= share.1,
        0 < share.1,
        lo * share.1 <= p * share.1 + (q - p) * share.0 <= hi * share.1,
{
    let d = q - p;
    let (m, n) = if lo <= p <= hi {
        (0int, 1int)
    } else if p < lo {
        (lo - p, d)
    } else {
        (p - hi, -d)
    };
    if lo <= p <= hi {
        assert((q - p) * 0 == 0) by (nonlinear_arith);
    } else if p < lo {
        assert(p * n + (q - p) * m == lo * n && lo * n <= hi * n) by (nonlinear_arith)
            requires
                m == lo - p,
                n == q - p,
                n > 0,
                lo <= hi,
        ;
    } else {
        assert(p * n + (q - p) * m == hi * n && lo * n <= hi * n) by (nonlinear_arith)
            requires
                m == p - hi,
                n == p - q,
                n > 0,
                lo <= hi,
        ;
    }
    (m, n)
}

proof fn lemma_point(p: (int, int), q: (int, int), r: (int, int, int, int))
    requires
        r.0 <= r.2,
        r.1 <= r.3,
        meets(p, q, r),
    ensures
        exists|m: int, n: int| #[trigger] reaches(p, q, r, m, n),
{
    let (dx, dy) = (q.0 - p.0, q.1 - p.1);
    if dx == 0 {
        let (m, n) = lemma_straight(p.1, q.1, r.1, r.3);
        assert(r.0 * n <= p.0 * n + (q.0 - p.0) * m <= r.2 * n) by (nonlinear_arith)
            requires
                q.0 - p.0 == 0,
                r.0 <= p.0 <= r.2,
                n > 0,
        ;
        assert(reaches(p, q, r, m, n));
    } else if dy == 0 {
        let (m, n) = lemma_straight(p.0, q.0, r.0, r.2);
        assert(r.1 * n <= p.1 * n + (q.1 - p.1) * m <= r.3 * n) by (nonlinear_arith)
            requires
                q.1 - p.1 == 0,
                r.1 <= p.1 <= r.3,
                n > 0,
        ;
        assert(reaches(p, q, r, m, n));
    } else {
        // Reflected so that the segment rises to the right.
        let (xl, xh) = if dx > 0 { (r.0, r.2) } else { (-r.2, -r.0) };
        let (yl, yh) = if dy > 0 { (r.1, r.3) } else { (-r.3, -r.1) };
        let (p0, p1) = (if dx > 0 { p.0 } else { -p.0 }, if dy > 0 { p.1 } else { -p.1 });
        let (ax, ay) = (if dx > 0 { dx } else { -dx }, if dy > 0 { dy } else { -dy });
        lemma_sides(p, q, r);
        let (m, n) = lemma_rising(p0, p1, ax, ay, xl, xh, yl, yh);
        assert(r.0 * n <= p.0 * n + (q.0 - p.0) * m <= r.2 * n) by (nonlinear_arith)
            requires
                xl * n <= p0 * n + ax * m <= xh * n,
                q.0 - p.0 == dx,
                dx > 0 ==> xl == r.0 && xh == r.2 && p0 == p.0 && ax == dx,
                dx <= 0 ==> xl == -r.2 && xh == -r.0 && p0 == -p.0 && ax == -dx,
        ;
        assert(r.1 * n <= p.1 * n + (q.1 - p.1) * m <= r.3 * n) by (nonlinear_arith)
            requires
                yl * n <= p1 * n + ay * m <= yh * n,
                q.1 - p.1 == dy,
                dy > 0 ==> yl == r.1 && yh == r.3 && p1 == p.1 && ay == dy,
                dy <= 0 ==> yl == -r.3 && yh == -r.1 && p1 == -p.1 && ay == -dy,
        ;
        assert(reaches(p, q, r, m, n));
    }
}

/// The corners furthest to either side of a slanted segment's line are not both beyond it.
proof fn lemma_sides(p: (int, int), q: (int, int), r: (int, int, int, int))
    requires
        r.0 <= r.2,
        r.1 <= r.3,
        meets(p, q, r),
        p.0 != q.0,
        p.1 != q.1,
    ensures
        ({
            let (dx, dy) = (q.0 - p.0, q.1 - p.1);
            let (xl, xh) = if dx > 0 { (r.0, r.2) } else { (-r.2, -r.0) };
            let (yl, yh) = if dy > 0 { (r.1, r.3) } else { (-r.3, -r.1) };
            let (p0, p1) = (if dx > 0 { p.0 } else { -p.0 }, if dy > 0 { p.1 } else { -p.1 });
            let (ax, ay) = (if dx > 0 { dx } else { -dx }, if dy > 0 { dy } else { -dy });
            ax * (yh - p1) - ay * (xl - p0) >= 0 && ax * (yl - p1) - ay * (xh - p0) <= 0
        }),
{
    let (dx, dy) = (q.0 - p.0, q.1 - p.1);
    let s0 = side(p, q, (r.0, r.1));
    let s1 = side(p, q, (r.2, r.1));
    let s2 = side(p, q, (r.0, r.3));
    let s3 = side(p, q, (r.2, r.3));
    if (dx > 0) == (dy > 0) {
        // The line rises: its upper left and lower right corners are the furthest.
        if dx > 0 {
            assert(s1 <= s0 <= s2 && s1 <= s3 <= s2) by (nonlinear_arith)
                requires
                    s0 == dx * (r.1 - p.1) - dy * (r.0 - p.0),
                    s1 == dx * (r.1 - p.1) - dy * (r.2 - p.0),
                    s2 == dx * (r.3 - p.1) - dy * (r.0 - p.0),
                    s3 == dx * (r.3 - p.1) - dy * (r.2 - p.0),
                    dx > 0,
                    dy > 0,
                    r.0 <= r.2,
                    r.1 <= r.3,
            ;
        } else {
            assert(s2 <= s0 <= s1 && s2 <= s3 <= s1) by (nonlinear_arith)
                requires
                    s0 == dx * (r.1 - p.1) - dy * (r.0 - p.0),
                    s1 == dx * (r.1 - p.1) - dy * (r.2 - p.0),
                    s2 == dx * (r.3 - p.1) - dy * (r.0 - p.0),
                    s3 == dx * (r.3 - p.1) - dy * (r.2 - p.0),
                    dx < 0,
                    dy < 0,
                    r.0 <= r.2,
                    r.1 <= r.3,
            ;
            assert((-dx) * (-r.1 + p.1) - (-dy) * (-r.2 + p.0) == s1 && (-dx) * (-r.3 + p.1) - (-dy)
                * (-r.0 + p.0) == s2) by (nonlinear_arith)
                requires
                    s1 == dx * (r.1 - p.1) - dy * (r.2 - p.0),
                    s2 == dx * (r.3 - p.1) - dy * (r.0 - p.0),
            ;
        }
    } else if dx > 0 {
        assert(s0 <= s1 <= s3 && s0 <= s2 <= s3) by (nonlinear_arith)
            requires
                s0 == dx * (r.1 - p.1) - dy * (r.0 - p.0),
                s1 == dx * (r.1 - p.1) - dy * (r.2 - p.0),
                s2 == dx * (r.3 - p.1) - dy * (r.0 - p.0),
                s3 == dx * (r.3 - p.1) - dy * (r.2 - p.0),
                dx > 0,
                dy < 0,
                r.0 <= r.2,
                r.1 <= r.3,
        ;
        assert(dx * (-r.1 + p.1) - (-dy) * (r.0 - p.0) == -s0 && dx * (-r.3 + p.1) - (-dy) * (r.2
            - p.0) == -s3) by (nonlinear_arith)
            requires
                s0 == dx * (r.1 - p.1) - dy * (r.0 - p.0),
                s3 == dx * (r.3 - p.1) - dy * (r.2 - p.0),
        ;
    } else {
        assert(s3 <= s1 <= s0 && s3 <= s2 <= s0) by (nonlinear_arith)
            requires
                s0 == dx * (r.1 - p.1) - dy * (r.0 - p.0),
                s1 == dx * (r.1 - p.1) - dy * (r.2 - p.0),
                s2 == dx * (r.3 - p.1) - dy * (r.0 - p.0),
                s3 == dx * (r.3 - p.1) - dy * (r.2 - p.0),
                dx < 0,
                dy > 0,
                r.0 <= r.2,
                r.1 <= r.3,
        ;
        assert((-dx) * (r.3 - p.1) - dy * (-r.2 + p.0) == -s3 && (-dx) * (r.1 - p.1) - dy * (-r.0
            + p.0) == -s0) by (nonlinear_arith)
            requires
                s0 == dx * (r.1 - p.1) - dy * (r.0 - p.0),
                s3 == dx * (r.3 - p.1) - dy * (r.2 - p.0),
        ;
    }
}

/// A point of the segment in the rectangle makes them meet.
proof fn lemma_end_meets(p: (int, int), q: (int, int), r: (int, int, int, int))
    requires
        r.0 <= p.0 <= r.2,
        r.1 <= p.1 <= r.3,
    ensures
        meets(p, q, r),
        meets(q, p, r),
{
    assert((q.0 - p.0) * 0 == 0 && (q.1 - p.1) * 0 == 0) by (nonlinear_arith);
    assert(q.0 * 1 + (p.0 - q.0) * 1 == p.0 && q.1 * 1 + (p.1 - q.1) * 1 == p.1)
        by (nonlinear_arith);
    lemma_reached(p, q, r, 0, 1);
    lemma_reached(q, p, r, 1, 1);
}

/// Of three directions, each weighed by the turn between the other two, the sum is nothing.
proof fn lemma_triple(ux: int, uy: int, vx: int, vy: int, wx: int, wy: int)
    ensures
        wx * (ux * vy - uy * vx) + ux * (vx * wy - vy * wx) == vx * (ux * wy - uy * wx),
        wy * (ux * vy - uy * vx) + uy * (vx * wy - vy * wx) == vy * (ux * wy - uy * wx),
{
    assert(wx * (ux * vy - uy * vx) == wx * (ux * vy) - wx * (uy * vx)) by (nonlinear_arith);
    assert(ux * (vx * wy - vy * wx) == ux * (vx * wy) - ux * (vy * wx)) by (nonlinear_arith);
    assert(vx * (ux * wy - uy * wx) == vx * (ux * wy) - vx * (uy * wx)) by (nonlinear_arith);
    assert(wx * (ux * vy) == ux * (vy * wx)) by (nonlinear_arith);
    assert(wx * (uy * vx) == vx * (uy * wx)) by (nonlinear_arith);
    assert(ux * (vx * wy) == vx * (ux * wy)) by (nonlinear_arith);
    assert(wy * (ux * vy - uy * vx) == wy * (ux * vy) - wy * (uy * vx)) by (nonlinear_arith);
    assert(uy * (vx * wy - vy * wx) == uy * (vx * wy) - uy * (vy * wx)) by (nonlinear_arith);
    assert(vy * (ux * wy - uy * wx) == vy * (ux * wy) - vy * (uy * wx)) by (nonlinear_arith);
    assert(wy * (ux * vy) == vy * (ux * wy)) by (nonlinear_arith);
    assert(wy * (uy * vx) == uy * (vx * wy)) by (nonlinear_arith);
    assert(uy * (vy * wx) == vy * (uy * wx)) by (nonlinear_arith);
}

/// Two segments that cross do so at a point of the one that lies between the ends of the other.
proof fn lemma_cross(
    a: (int, int),
    b: (int, int),
    c: (int, int),
    d: (int, int),
    r: (int, int, int, int),
)
    requires
        side(c, d, a) > 0,
        side(c, d, b) < 0,
        side(a, b, c) < 0,
        side(a, b, d) > 0,
        r.0 <= c.0 <= r.2 && r.1 <= c.1 <= r.3,
        r.0 <= d.0 <= r.2 && r.1 <= d.1 <= r.3,
    ensures
        meets(a, b, r),
{
    let (s1, s2) = (side(c, d, a), side(c, d, b));
    let (s3, s4) = (side(a, b, c), side(a, b, d));
    let n = s1 - s2;
    let (ux, uy) = (b.0 - a.0, b.1 - a.1);
    let (vx, vy) = (d.0 - c.0, d.1 - c.1);
    assert(s1 - s2 == ux * vy - uy * vx) by (nonlinear_arith)
        requires
            s1 == vx * (a.1 - c.1) - vy * (a.0 - c.0),
            s2 == vx * (b.1 - c.1) - vy * (b.0 - c.0),
            ux == b.0 - a.0,
            uy == b.1 - a.1,
    ;
    assert(s4 - s3 == ux * vy - uy * vx) by (nonlinear_arith)
        requires
            s3 == ux * (c.1 - a.1) - uy * (c.0 - a.0),
            s4 == ux * (d.1 - a.1) - uy * (d.0 - a.0),
            vx == d.0 - c.0,
            vy == d.1 - c.1,
    ;
    let (wx, wy) = (a.0 - c.0, a.1 - c.1);
    lemma_triple(ux, uy, vx, vy, wx, wy);
    assert(s3 == -(ux * wy - uy * wx)) by (nonlinear_arith)
        requires
            s3 == ux * (c.1 - a.1) - uy * (c.0 - a.0),
            wx == a.0 - c.0,
            wy == a.1 - c.1,
    ;
    assert(a.0 * n + ux * s1 == c.0 * n + vx * (-s3)) by (nonlinear_arith)
        requires
            wx * n + ux * s1 == vx * (-s3),
            wx == a.0 - c.0,
    ;
    assert(a.1 * n + uy * s1 == c.1 * n + vy * (-s3)) by (nonlinear_arith)
        requires
            wy * n + uy * s1 == vy * (-s3),
            wy == a.1 - c.1,
    ;
    lemma_between(c.0, d.0, -s3, n);
    lemma_between(c.1, d.1, -s3, n);
    assert(r.0 * n <= min(c.0, d.0) * n && max(c.0, d.0) * n <= r.2 * n && r.1 * n <= min(c.1, d.1)
        * n && max(c.1, d.1) * n <= r.3 * n) by (nonlinear_arith)
        requires
            n > 0,
            r.0 <= min(c.0, d.0),
            max(c.0, d.0) <= r.2,
            r.1 <= min(c.1, d.1),
            max(c.1, d.1) <= r.3,
    ;
    lemma_reached(a, b, r, s1, n);
}

/// The line through `q` and `p` is that through `p` and `q`, with its sides the other way round.
proof fn lemma_turned(p: (int, int), q: (int, int), x: (int, int))
    ensures
        side(q, p, x) == -side(p, q, x),
{
    assert((p.0 - q.0) * (x.1 - q.1) - (p.1 - q.1) * (x.0 - q.0) == -((q.0 - p.0) * (x.1 - p.1) - (
    q.1 - p.1) * (x.0 - p.0))) by (nonlinear_arith);
}

/// A segment that meets a segment of the rectangle meets the rectangle.
proof fn lemma_within(
    a: (int, int),
    b: (int, int),
    c: (int, int),
    d: (int, int),
    r: (int, int, int, int),
)
    requires
        segments_meet(a, b, c, d),
        r.0 <= c.0 <= r.2 && r.1 <= c.1 <= r.3,
        r.0 <= d.0 <= r.2 && r.1 <= d.1 <= r.3,
    ensures
        meets(a, b, r),
{
    lemma_turned(c, d, a);
    lemma_turned(c, d, b);
    lemma_turned(a, b, c);
    lemma_turned(a, b, d);
    if on_segment(a, c, d) {
        lemma_end_meets(a, b, r);
    } else if on_segment(b, c, d) {
        lemma_end_meets(b, a, r);
    } else if on_segment(c, a, b) {
        lemma_on_meets(a, b, c, r);
    } else if on_segment(d, a, b) {
        lemma_on_meets(a, b, d, r);
    } else if side(c, d, a) > 0 {
        lemma_crossing_signs(a, b, c, d);
        lemma_cross(a, b, c, d, r);
    } else {
        lemma_crossing_signs(a, b, d, c);
        lemma_cross(a, b, d, c, r);
    }
}

/// Which way round the second segment's ends lie follows from the first's.
proof fn lemma_crossing_signs(a: (int, int), b: (int, int), c: (int, int), d: (int, int))
    requires
        side(c, d, a) > 0,
        side(c, d, b) < 0,
        side(a, b, c) > 0 && side(a, b, d) < 0 || side(a, b, c) < 0 && side(a, b, d) > 0,
    ensures
        side(a, b, c) < 0,
        side(a, b, d) > 0,
{
    let (ux, uy) = (b.0 - a.0, b.1 - a.1);
    let (vx, vy) = (d.0 - c.0, d.1 - c.1);
    let (s1, s2) = (side(c, d, a), side(c, d, b));
    let (s3, s4) = (side(a, b, c), side(a, b, d));
    assert(s1 - s2 == s4 - s3) by (nonlinear_arith)
        requires
            s1 == vx * (a.1 - c.1) - vy * (a.0 - c.0),
            s2 == vx * (b.1 - c.1) - vy * (b.0 - c.0),
            s3 == ux * (c.1 - a.1) - uy * (c.0 - a.0),
            s4 == ux * (d.1 - a.1) - uy * (d.0 - a.0),
            ux == b.0 - a.0,
            uy == b.1 - a.1,
            vx == d.0 - c.0,
            vy == d.1 - c.1,
    ;
}

/// A point of the rectangle on the segment makes them meet.
proof fn lemma_on_meets(
    p: (int, int),
    q: (int, int),
    c: (int, int),
    r: (int, int, int, int),
)
    requires
        on_segment(c, p, q),
        r.0 <= c.0 <= r.2 && r.1 <= c.1 <= r.3,
    ensures
        meets(p, q, r),
{
    lemma_corners(p, q, r, c.0, c.1, 1);
}

/// The point `m / n` of the way from `a` to `b` is the point `k / n` of the way from `c` to `d`.
pub open spec fn shares(
    a: (int, int),
    b: (int, int),
    c: (int, int),
    d: (int, int),
    m: int,
    k: int,
    n: int,
) -> bool {
    &&& 0 <= m <= n && 0 <= k <= n && 0 < n
    &&& a.0 * n + (b.0 - a.0) * m == c.0 * n + (d.0 - c.0) * k
    &&& a.1 * n + (b.1 - a.1) * m == c.1 * n + (d.1 - c.1) * k
}

/// Two closed segments touch exactly where they share a point: they cross, or one ends on the other,
/// or they lie along one another.
pub proof fn law_touch_is_shared_point(
    a: (int, int),
    b: (int, int),
    c: (int, int),
    d: (int, int),
)
    ensures
        segments_meet(a, b, c, d) <==> exists|m: int, k: int, n: int| #[trigger]
            shares(a, b, c, d, m, k, n),
{
    if segments_meet(a, b, c, d) {
        lemma_meet_shares(a, b, c, d);
    }
    if exists|m: int, k: int, n: int| #[trigger] shares(a, b, c, d, m, k, n) {
        let (m, k, n) = choose|m: int, k: int, n: int| #[trigger] shares(a, b, c, d, m, k, n);
        lemma_shares_meet(a, b, c, d, m, k, n);
    }
}

/// Which of two segments comes first does not matter to whether they touch, nor which end of either.
pub proof fn law_touch_is_symmetric(a: (int, int), b: (int, int), c: (int, int), d: (int, int))
    ensures
        segments_meet(a, b, c, d) == segments_meet(c, d, a, b),
        segments_meet(a, b, c, d) == segments_meet(b, a, c, d),
        segments_meet(a, b, c, d) == segments_meet(a, b, d, c),
{
    lemma_swapped(a, b, c, d);
    lemma_swapped(c, d, a, b);
}

/// A point on a segment, as a share of the way along it.
proof fn lemma_share_of(p: (int, int), c: (int, int), d: (int, int)) -> (share: (int, int))
    requires
        on_segment(p, c, d),
    ensures
        0 <= share.0 <= share.1,
        0 < share.1,
        p.0 * share.1 == c.0 * share.1 + (d.0 - c.0) * share.0,
        p.1 * share.1 == c.1 * share.1 + (d.1 - c.1) * share.0,
{
    let (vx, vy) = (d.0 - c.0, d.1 - c.1);
    let (ex, ey) = (p.0 - c.0, p.1 - c.1);
    assert(vx * ey == vy * ex);
    let (k, n) = if vx > 0 {
        (ex, vx)
    } else if vx < 0 {
        (-ex, -vx)
    } else if vy > 0 {
        (ey, vy)
    } else if vy < 0 {
        (-ey, -vy)
    } else {
        (0int, 1int)
    };
    assert(ex * n == vx * k && ey * n == vy * k) by (nonlinear_arith)
        requires
            vx * ey == vy * ex,
            vx > 0 ==> k == ex && n == vx,
            vx < 0 ==> k == -ex && n == -vx,
            vx == 0 && vy > 0 ==> k == ey && n == vy && ex == 0,
            vx == 0 && vy < 0 ==> k == -ey && n == -vy && ex == 0,
            vx == 0 && vy == 0 ==> k == 0 && n == 1 && ex == 0 && ey == 0,
    ;
    assert(p.0 * n == c.0 * n + vx * k) by (nonlinear_arith)
        requires
            ex * n == vx * k,
            ex == p.0 - c.0,
    ;
    assert(p.1 * n == c.1 * n + vy * k) by (nonlinear_arith)
        requires
            ey * n == vy * k,
            ey == p.1 - c.1,
    ;
    (k, n)
}

proof fn lemma_meet_shares(a: (int, int), b: (int, int), c: (int, int), d: (int, int))
    requires
        segments_meet(a, b, c, d),
    ensures
        exists|m: int, k: int, n: int| #[trigger] shares(a, b, c, d, m, k, n),
{
    assert(forall|x: int| #[trigger] (x * 0) == 0) by (nonlinear_arith);
    if on_segment(a, c, d) {
        let (k, n) = lemma_share_of(a, c, d);
        assert(shares(a, b, c, d, 0, k, n));
    } else if on_segment(b, c, d) {
        let (k, n) = lemma_share_of(b, c, d);
        assert(a.0 * n + (b.0 - a.0) * n == b.0 * n && a.1 * n + (b.1 - a.1) * n == b.1 * n)
            by (nonlinear_arith);
        assert(shares(a, b, c, d, n, k, n));
    } else if on_segment(c, a, b) {
        let (m, n) = lemma_share_of(c, a, b);
        assert(shares(a, b, c, d, m, 0, n));
    } else if on_segment(d, a, b) {
        let (m, n) = lemma_share_of(d, a, b);
        assert(c.0 * n + (d.0 - c.0) * n == d.0 * n && c.1 * n + (d.1 - c.1) * n == d.1 * n)
            by (nonlinear_arith);
        assert(shares(a, b, c, d, m, n, n));
    } else if side(c, d, a) > 0 {
        lemma_crossing_signs(a, b, c, d);
        lemma_cross_shares(a, b, c, d);
    } else {
        lemma_turned(c, d, a);
        lemma_turned(c, d, b);
        lemma_crossing_signs(a, b, d, c);
        let (m, k, n) = lemma_cross_shares(a, b, d, c);
        assert(d.0 * n + (c.0 - d.0) * k == c.0 * n + (d.0 - c.0) * (n - k) && d.1 * n + (c.1
            - d.1) * k == c.1 * n + (d.1 - c.1) * (n - k)) by (nonlinear_arith);
        assert(shares(a, b, c, d, m, n - k, n));
    }
}

/// Two segments that cross share a point.
proof fn lemma_cross_shares(
    a: (int, int),
    b: (int, int),
    c: (int, int),
    d: (int, int),
) -> (share: (int, int, int))
    requires
        side(c, d, a) > 0,
        side(c, d, b) < 0,
        side(a, b, c) < 0,
        side(a, b, d) > 0,
    ensures
        shares(a, b, c, d, share.0, share.1, share.2),
{
    let (s1, s2) = (side(c, d, a), side(c, d, b));
    let (s3, s4) = (side(a, b, c), side(a, b, d));
    let n = s1 - s2;
    let (ux, uy) = (b.0 - a.0, b.1 - a.1);
    let (vx, vy) = (d.0 - c.0, d.1 - c.1);
    lemma_turns(a, b, c, d);
    let (wx, wy) = (a.0 - c.0, a.1 - c.1);
    lemma_triple(ux, uy, vx, vy, wx, wy);
    assert(s3 == -(ux * wy - uy * wx)) by (nonlinear_arith)
        requires
            s3 == ux * (c.1 - a.1) - uy * (c.0 - a.0),
            wx == a.0 - c.0,
            wy == a.1 - c.1,
    ;
    assert(a.0 * n + ux * s1 == c.0 * n + vx * (-s3)) by (nonlinear_arith)
        requires
            wx * n + ux * s1 == vx * (-s3),
            wx == a.0 - c.0,
    ;
    assert(a.1 * n + uy * s1 == c.1 * n + vy * (-s3)) by (nonlinear_arith)
        requires
            wy * n + uy * s1 == vy * (-s3),
            wy == a.1 - c.1,
    ;
    (s1, -s3, n)
}

/// How far apart the ends of each segment lie from the other's line is the turn between the two.
proof fn lemma_turns(a: (int, int), b: (int, int), c: (int, int), d: (int, int))
    ensures
        ({
            let turn = (b.0 - a.0) * (d.1 - c.1) - (b.1 - a.1) * (d.0 - c.0);
            &&& side(c, d, a) - side(c, d, b) == turn
            &&& side(a, b, d) - side(a, b, c) == turn
        }),
{
    let (ux, uy) = (b.0 - a.0, b.1 - a.1);
    let (vx, vy) = (d.0 - c.0, d.1 - c.1);
    assert((vx * (a.1 - c.1) - vy * (a.0 - c.0)) - (vx * (b.1 - c.1) - vy * (b.0 - c.0)) == ux * vy
        - uy * vx) by (nonlinear_arith)
        requires
            ux == b.0 - a.0,
            uy == b.1 - a.1,
    ;
    assert((ux * (d.1 - a.1) - uy * (d.0 - a.0)) - (ux * (c.1 - a.1) - uy * (c.0 - a.0)) == ux * vy
        - uy * vx) by (nonlinear_arith)
        requires
            vx == d.0 - c.0,
            vy == d.1 - c.1,
    ;
}

/// How far a point of the segment `a`-`b` lies from a line, in terms of how far its ends do. Where
/// the point is on the line, the ends are not both on one side.
proof fn lemma_weighed(
    a: (int, int),
    b: (int, int),
    c: (int, int),
    d: (int, int),
    m: int,
    k: int,
    n: int,
)
    requires
        shares(a, b, c, d, m, k, n),
    ensures
        side(c, d, a) * (n - m) + side(c, d, b) * m == 0,
{
    let (vx, vy) = (d.0 - c.0, d.1 - c.1);
    let (x, y) = (a.0 * n + (b.0 - a.0) * m, a.1 * n + (b.1 - a.1) * m);
    let (s1, s2) = (side(c, d, a), side(c, d, b));
    assert(x - c.0 * n == vx * k && y - c.1 * n == vy * k);
    let (p, q) = (x - c.0 * n, y - c.1 * n);
    assert(p == (a.0 - c.0) * (n - m) + (b.0 - c.0) * m) by (nonlinear_arith)
        requires
            p == a.0 * n + (b.0 - a.0) * m - c.0 * n,
    ;
    assert(q == (a.1 - c.1) * (n - m) + (b.1 - c.1) * m) by (nonlinear_arith)
        requires
            q == a.1 * n + (b.1 - a.1) * m - c.1 * n,
    ;
    let (e, f, g, h) = (a.0 - c.0, a.1 - c.1, b.0 - c.0, b.1 - c.1);
    let l = n - m;
    assert((vx * f - vy * e) * l == vx * (f * l) - vy * (e * l)) by (nonlinear_arith);
    assert((vx * h - vy * g) * m == vx * (h * m) - vy * (g * m)) by (nonlinear_arith);
    assert(vx * (f * l + h * m) == vx * (f * l) + vx * (h * m)) by (nonlinear_arith);
    assert(vy * (e * l + g * m) == vy * (e * l) + vy * (g * m)) by (nonlinear_arith);
    assert(vx * (vy * k) - vy * (vx * k) == 0) by (nonlinear_arith);
}

/// Numbers whose weighed sum is nothing are of opposite signs, or one of them with a weight is nothing.
proof fn lemma_weights(s: int, t: int, l: int, m: int)
    requires
        l >= 0,
        m >= 0,
        l + m > 0,
        s * l + t * m == 0,
    ensures
        s != 0 && t != 0 ==> (s > 0 && t < 0) || (s < 0 && t > 0),
        s == 0 && t != 0 ==> m == 0,
        t == 0 && s != 0 ==> l == 0,
{
    if s == 0 && t != 0 {
        assert(m == 0) by (nonlinear_arith)
            requires
                s * l + t * m == 0,
                s == 0,
                t != 0,
        ;
    }
    if t == 0 && s != 0 {
        assert(l == 0) by (nonlinear_arith)
            requires
                s * l + t * m == 0,
                t == 0,
                s != 0,
        ;
    }
    if s > 0 && t > 0 {
        assert(s * l + t * m > 0) by (nonlinear_arith)
            requires
                s > 0,
                t > 0,
                l >= 0,
                m >= 0,
                l + m > 0,
        ;
    }
    if s < 0 && t < 0 {
        assert(s * l + t * m < 0) by (nonlinear_arith)
            requires
                s < 0,
                t < 0,
                l >= 0,
                m >= 0,
                l + m > 0,
        ;
    }
}

/// The shared point where it is the end `a`.
proof fn lemma_end_on(
    a: (int, int),
    c: (int, int),
    d: (int, int),
    k: int,
    n: int,
)
    requires
        0 <= k <= n,
        0 < n,
        a.0 * n == c.0 * n + (d.0 - c.0) * k,
        a.1 * n == c.1 * n + (d.1 - c.1) * k,
    ensures
        on_segment(a, c, d),
{
    lemma_between(c.0, d.0, k, n);
    lemma_between(c.1, d.1, k, n);
    assert(min(c.0, d.0) <= a.0 <= max(c.0, d.0)) by (nonlinear_arith)
        requires
            min(c.0, d.0) * n <= a.0 * n <= max(c.0, d.0) * n,
            n > 0,
    ;
    assert(min(c.1, d.1) <= a.1 <= max(c.1, d.1)) by (nonlinear_arith)
        requires
            min(c.1, d.1) * n <= a.1 * n <= max(c.1, d.1) * n,
            n > 0,
    ;
    let (vx, vy) = (d.0 - c.0, d.1 - c.1);
    let (ex, ey) = (a.0 - c.0, a.1 - c.1);
    assert(ex * n == vx * k && ey * n == vy * k) by (nonlinear_arith)
        requires
            a.0 * n == c.0 * n + vx * k,
            a.1 * n == c.1 * n + vy * k,
            ex == a.0 - c.0,
            ey == a.1 - c.1,
    ;
    assert((vx * ey - vy * ex) * n == vx * (ey * n) - vy * (ex * n)) by (nonlinear_arith);
    assert(vx * (vy * k) - vy * (vx * k) == 0) by (nonlinear_arith);
    let s = vx * ey - vy * ex;
    assert(s == 0) by (nonlinear_arith)
        requires
            s * n == 0,
            n > 0,
    ;
}

pub(crate) proof fn lemma_shares_meet(
    a: (int, int),
    b: (int, int),
    c: (int, int),
    d: (int, int),
    m: int,
    k: int,
    n: int,
)
    requires
        shares(a, b, c, d, m, k, n),
    ensures
        segments_meet(a, b, c, d),
{
    let (s1, s2) = (side(c, d, a), side(c, d, b));
    let (s3, s4) = (side(a, b, c), side(a, b, d));
    lemma_turns(a, b, c, d);
    lemma_weighed(a, b, c, d, m, k, n);
    assert(shares(c, d, a, b, k, m, n));
    lemma_weighed(c, d, a, b, k, m, n);
    lemma_weights(s1, s2, n - m, m);
    lemma_weights(s3, s4, n - k, k);
    assert(forall|x: int| #[trigger] (x * 0) == 0) by (nonlinear_arith);
    assert(a.0 * n + (b.0 - a.0) * n == b.0 * n && a.1 * n + (b.1 - a.1) * n == b.1 * n)
        by (nonlinear_arith);
    assert(c.0 * n + (d.0 - c.0) * n == d.0 * n && c.1 * n + (d.1 - c.1) * n == d.1 * n)
        by (nonlinear_arith);
    if s1 != s2 {
        if s1 == 0 {
            lemma_end_on(a, c, d, k, n);
        } else if s2 == 0 {
            lemma_end_on(b, c, d, k, n);
        } else if s3 == 0 {
            lemma_end_on(c, a, b, m, n);
        } else if s4 == 0 {
            lemma_end_on(d, a, b, m, n);
        }
    } else {
        assert(s1 == 0) by {
            if s1 != 0 {
                assert(s2 != 0);
            }
        }
        assert(s3 == 0) by {
            if s3 != 0 {
                assert(s4 != 0);
            }
        }
        lemma_between(a.0, b.0, m, n);
        lemma_between(a.1, b.1, m, n);
        lemma_between(c.0, d.0, k, n);
        lemma_between(c.1, d.1, k, n);
        if a == b {
            assert((b.0 - a.0) * m == 0 && (b.1 - a.1) * m == 0) by (nonlinear_arith)
                requires
                    b.0 - a.0 == 0,
                    b.1 - a.1 == 0,
            ;
            lemma_end_on(a, c, d, k, n);
        } else if c == d {
            assert((d.0 - c.0) * k == 0 && (d.1 - c.1) * k == 0) by (nonlinear_arith)
                requires
                    d.0 - c.0 == 0,
                    d.1 - c.1 == 0,
            ;
            lemma_end_on(c, a, b, m, n);
        } else if a.0 != b.0 {
            let x = a.0 * n + (b.0 - a.0) * m;
            lemma_along(a, b, c, d, x, n);
        } else {
            let y = a.1 * n + (b.1 - a.1) * m;
            let (u, v, w, z) = (crossed(a), crossed(b), crossed(c), crossed(d));
            lemma_crossed_side(c, d, a);
            lemma_crossed_side(c, d, b);
            lemma_crossed_side(a, b, c);
            lemma_crossed_side(a, b, d);
            lemma_along(u, v, w, z, y, n);
            lemma_crossed(a, b, c, d);
        }
    }
}

/// A point of the line through `a` and `b` that lies between them along one axis lies between them.
proof fn lemma_in_line(p: (int, int), a: (int, int), b: (int, int))
    requires
        a.0 != b.0,
        side(a, b, p) == 0,
        min(a.0, b.0) <= p.0 <= max(a.0, b.0),
    ensures
        on_segment(p, a, b),
{
    let (dx, dy) = (b.0 - a.0, b.1 - a.1);
    let (ex, ey) = (p.0 - a.0, p.1 - a.1);
    assert(dx * ey == dy * ex);
    if dy >= 0 {
        assert(0 <= ey <= dy) by (nonlinear_arith)
            requires
                dx * ey == dy * ex,
                0 <= ex <= dx && dx > 0 || dx <= ex <= 0 && dx < 0,
                dy >= 0,
        ;
    } else {
        assert(dy <= ey <= 0) by (nonlinear_arith)
            requires
                dx * ey == dy * ex,
                0 <= ex <= dx && dx > 0 || dx <= ex <= 0 && dx < 0,
                dy < 0,
        ;
    }
}

/// Segments along one line that overlap along one axis touch.
proof fn lemma_along(
    a: (int, int),
    b: (int, int),
    c: (int, int),
    d: (int, int),
    x: int,
    n: int,
)
    requires
        side(c, d, a) == 0,
        side(c, d, b) == 0,
        side(a, b, c) == 0,
        side(a, b, d) == 0,
        a.0 != b.0,
        c != d,
        0 < n,
        min(a.0, b.0) * n <= x <= max(a.0, b.0) * n,
        min(c.0, d.0) * n <= x <= max(c.0, d.0) * n,
    ensures
        segments_meet(a, b, c, d),
{
    let (ux, uy) = (b.0 - a.0, b.1 - a.1);
    let (vx, vy) = (d.0 - c.0, d.1 - c.1);
    lemma_turns(a, b, c, d);
    assert(vx != 0) by {
        if vx == 0 {
            assert(vy == 0) by (nonlinear_arith)
                requires
                    ux * vy - uy * vx == 0,
                    vx == 0,
                    ux != 0,
            ;
        }
    }
    assert(max(a.0, b.0) >= min(c.0, d.0) && max(c.0, d.0) >= min(a.0, b.0)) by (nonlinear_arith)
        requires
            min(a.0, b.0) * n <= max(c.0, d.0) * n,
            min(c.0, d.0) * n <= max(a.0, b.0) * n,
            n > 0,
    ;
    if min(c.0, d.0) >= min(a.0, b.0) {
        let p = if c.0 <= d.0 {
            c
        } else {
            d
        };
        lemma_in_line(p, a, b);
    } else {
        let p = if a.0 <= b.0 {
            a
        } else {
            b
        };
        lemma_in_line(p, c, d);
    }
}

/// Left of every point of a ring, the ray crosses an edge for each time the ring passes its height.
proof fn lemma_left_of_all(p: (int, int), ring: Seq<(int, int)>)
    requires
        ring.len() > 0,
        forall|i: int| 0 <= i < ring.len() ==> p.0 < (#[trigger] ring[i]).0,
    ensures
        inside(p, ring) == ((ring[0].1 > p.1) != (ring.last().1 > p.1)),
    decreases ring.len(),
{
    if ring.len() >= 2 {
        let head = ring.drop_last();
        assert forall|i: int| 0 <= i < head.len() implies p.0 < (#[trigger] head[i]).0 by {
            assert(head[i] == ring[i]);
        }
        lemma_left_of_all(p, head);
        let (a, b) = (ring[ring.len() - 2], ring.last());
        assert(p.0 < a.0 && p.0 < b.0);
        if (a.1 > p.1) != (b.1 > p.1) {
            let s = side(a, b, p);
            if b.1 > a.1 {
                assert(s > 0) by (nonlinear_arith)
                    requires
                        s == (b.0 - a.0) * (p.1 - a.1) - (b.1 - a.1) * (p.0 - a.0),
                        a.1 <= p.1 < b.1,
                        p.0 < a.0,
                        p.0 < b.0,
                ;
            } else {
                assert(s < 0) by (nonlinear_arith)
                    requires
                        s == (b.0 - a.0) * (p.1 - a.1) - (b.1 - a.1) * (p.0 - a.0),
                        b.1 <= p.1 < a.1,
                        p.0 < a.0,
                        p.0 < b.0,
                ;
            }
        }
    }
}

/// A point that is inside a ring has an edge to its right at its height.
proof fn lemma_has_edge(p: (int, int), ring: Seq<(int, int)>)
    requires
        inside(p, ring),
    ensures
        exists|i: int|
            0 <= i < ring.len() - 1 && crosses_ray(p, #[trigger] ring[i], ring[i + 1]),
    decreases ring.len(),
{
    let head = ring.drop_last();
    if inside(p, head) {
        lemma_has_edge(p, head);
        let i = choose|i: int|
            0 <= i < head.len() - 1 && crosses_ray(p, #[trigger] head[i], head[i + 1]);
        assert(head[i] == ring[i] && head[i + 1] == ring[i + 1]);
    } else {
        let i = ring.len() - 2;
        assert(crosses_ray(p, ring[i], ring[i + 1]));
    }
}

/// What is inside a closed ring is inside its bounding rectangle.
proof fn lemma_inside_bounds(p: (int, int), points: Seq<Point>)
    requires
        inside(p, ring_of(points)),
        points[0] == points.last(),
    ensures
        ({
            let r = bounds(points);
            r.0 <= p.0 <= r.2 && r.1 <= p.1 <= r.3
        }),
{
    let r = bounds(points);
    let ring = ring_of(points);
    lemma_has_edge(p, ring);
    let i = choose|i: int|
        0 <= i < ring.len() - 1 && crosses_ray(p, #[trigger] ring[i], ring[i + 1]);
    let (a, b) = (ring[i], ring[i + 1]);
    law_bounds_hold(points, i);
    law_bounds_hold(points, i + 1);
    if p.0 > r.2 {
        let s = side(a, b, p);
        if b.1 > a.1 {
            assert(s < 0) by (nonlinear_arith)
                requires
                    s == (b.0 - a.0) * (p.1 - a.1) - (b.1 - a.1) * (p.0 - a.0),
                    a.1 <= p.1 < b.1,
                    p.0 > a.0,
                    p.0 > b.0,
            ;
        } else {
            assert(s > 0) by (nonlinear_arith)
                requires
                    s == (b.0 - a.0) * (p.1 - a.1) - (b.1 - a.1) * (p.0 - a.0),
                    b.1 <= p.1 < a.1,
                    p.0 > a.0,
                    p.0 > b.0,
            ;
        }
    }
    if p.0 < r.0 {
        assert forall|j: int| 0 <= j < ring.len() implies p.0 < (#[trigger] ring[j]).0 by {
            law_bounds_hold(points, j);
        }
        lemma_left_of_all(p, ring);
        assert(ring[0] == pt(points[0]) && ring.last() == pt(points.last()));
    }
}

/// The bounding rectangle of a closed ring never rejects what touches the ring: the cheap test loses
/// nothing.
pub proof fn law_reject_is_sound(a: Point, b: Point, points: Seq<Point>)
    requires
        points.len() > 0,
        points[0] == points.last(),
        meets_ring(pt(a), pt(b), ring_of(points)),
    ensures
        meets(pt(a), pt(b), rt(bounds(points))),
{
    let ring = ring_of(points);
    if meets_edge(pt(a), pt(b), ring) {
        let i = choose|i: int|
            0 <= i < ring.len() - 1 && segments_meet(
                pt(a),
                pt(b),
                #[trigger] ring[i],
                ring[i + 1],
            );
        law_bounds_hold(points, i);
        law_bounds_hold(points, i + 1);
        lemma_within(pt(a), pt(b), ring[i], ring[i + 1], rt(bounds(points)));
    } else {
        lemma_inside_bounds(pt(a), points);
        lemma_end_meets(pt(a), pt(b), rt(bounds(points)));
    }
}

/// Which end of a segment comes first does not matter.
pub(crate) proof fn lemma_swapped(a: (int, int), b: (int, int), c: (int, int), d: (int, int))
    ensures
        segments_meet(a, b, c, d) == segments_meet(a, b, d, c),
{
    lemma_turned(c, d, a);
    lemma_turned(c, d, b);
}

/// The point with its axes exchanged.
spec fn crossed(p: (int, int)) -> (int, int) {
    (p.1, p.0)
}

/// The point on the other side of the vertical axis.
spec fn mirrored(p: (int, int)) -> (int, int) {
    (-p.0, p.1)
}

proof fn lemma_crossed_side(o: (int, int), p: (int, int), q: (int, int))
    ensures
        side(crossed(o), crossed(p), crossed(q)) == -side(o, p, q),
{
}

proof fn lemma_mirrored_side(o: (int, int), p: (int, int), q: (int, int))
    ensures
        side(mirrored(o), mirrored(p), mirrored(q)) == -side(o, p, q),
{
    assert((-p.0 + o.0) * (q.1 - o.1) - (p.1 - o.1) * (-q.0 + o.0) == -((p.0 - o.0) * (q.1 - o.1) - (
    p.1 - o.1) * (q.0 - o.0))) by (nonlinear_arith);
}

proof fn lemma_crossed(a: (int, int), b: (int, int), c: (int, int), d: (int, int))
    ensures
        segments_meet(crossed(a), crossed(b), crossed(c), crossed(d)) == segments_meet(a, b, c, d),
{
    lemma_crossed_side(c, d, a);
    lemma_crossed_side(c, d, b);
    lemma_crossed_side(a, b, c);
    lemma_crossed_side(a, b, d);
}

proof fn lemma_mirrored(a: (int, int), b: (int, int), c: (int, int), d: (int, int))
    ensures
        segments_meet(mirrored(a), mirrored(b), mirrored(c), mirrored(d)) == segments_meet(
            a,
            b,
            c,
            d,
        ),
{
    lemma_mirrored_side(c, d, a);
    lemma_mirrored_side(c, d, b);
    lemma_mirrored_side(a, b, c);
    lemma_mirrored_side(a, b, d);
}

/// The segment meets a side of the rectangle.
pub open spec fn meets_side(a: (int, int), b: (int, int), r: (int, int, int, int)) -> bool {
    ||| segments_meet(a, b, (r.0, r.1), (r.2, r.1))
    ||| segments_meet(a, b, (r.2, r.1), (r.2, r.3))
    ||| segments_meet(a, b, (r.2, r.3), (r.0, r.3))
    ||| segments_meet(a, b, (r.0, r.3), (r.0, r.1))
}

/// A segment that passes from one side of an upright line to the other, between two points of it,
/// meets what lies between them.
proof fn lemma_passes(a: (int, int), b: (int, int), x: int, low: int, high: int)
    requires
        a.0 < x <= b.0,
        low < high,
        side(a, b, (x, low)) <= 0,
        side(a, b, (x, high)) >= 0,
    ensures
        segments_meet(a, b, (x, low), (x, high)),
{
    let (c, d) = ((x, low), (x, high));
    let (dx, dy) = (b.0 - a.0, b.1 - a.1);
    let (s1, s2) = (side(c, d, a), side(c, d, b));
    let (s3, s4) = (side(a, b, c), side(a, b, d));
    assert(s1 > 0 && s2 <= 0) by (nonlinear_arith)
        requires
            s1 == 0 * (a.1 - low) - (high - low) * (a.0 - x),
            s2 == 0 * (b.1 - low) - (high - low) * (b.0 - x),
            a.0 < x <= b.0,
            low < high,
    ;
    if b.0 == x {
        assert(low <= b.1 <= high) by (nonlinear_arith)
            requires
                dx * (low - a.1) - dy * (x - a.0) <= 0,
                dx * (high - a.1) - dy * (x - a.0) >= 0,
                dx == x - a.0,
                dx > 0,
                dy == b.1 - a.1,
        ;
        assert((high - low) * 0 == 0) by (nonlinear_arith);
        assert(on_segment(b, c, d));
    } else if s3 == 0 {
        lemma_on_line(a, b, x, low);
    } else if s4 == 0 {
        lemma_on_line(a, b, x, high);
    } else {
        assert((high - low) * (b.0 - x) > 0) by (nonlinear_arith)
            requires
                low < high,
                x < b.0,
        ;
    }
}

/// A point of a segment's line between the ends' places across lies on the segment.
proof fn lemma_on_line(a: (int, int), b: (int, int), x: int, y: int)
    requires
        a.0 < x <= b.0,
        side(a, b, (x, y)) == 0,
    ensures
        on_segment((x, y), a, b),
{
    let (dx, dy) = (b.0 - a.0, b.1 - a.1);
    let (ex, ey) = (x - a.0, y - a.1);
    assert(dx * ey == dy * ex);
    if dy >= 0 {
        assert(0 <= ey <= dy) by (nonlinear_arith)
            requires
                dx * ey == dy * ex,
                0 < ex <= dx,
                dy >= 0,
        ;
    } else {
        assert(dy <= ey <= 0) by (nonlinear_arith)
            requires
                dx * ey == dy * ex,
                0 < ex <= dx,
                dy < 0,
        ;
    }
}

/// A segment that comes from the left of a rectangle that it meets enters it through a side.
proof fn lemma_from_left(a: (int, int), b: (int, int), r: (int, int, int, int))
    requires
        r.0 < r.2,
        r.1 < r.3,
        a.0 < r.0,
        meets(a, b, r),
    ensures
        meets_side(a, b, r),
{
    let (dx, dy) = (b.0 - a.0, b.1 - a.1);
    let (s0, s1) = (side(a, b, (r.0, r.1)), side(a, b, (r.2, r.1)));
    let (s2, s3) = (side(a, b, (r.0, r.3)), side(a, b, (r.2, r.3)));
    assert(s0 < s2 && s1 < s3) by (nonlinear_arith)
        requires
            s0 == dx * (r.1 - a.1) - dy * (r.0 - a.0),
            s1 == dx * (r.1 - a.1) - dy * (r.2 - a.0),
            s2 == dx * (r.3 - a.1) - dy * (r.0 - a.0),
            s3 == dx * (r.3 - a.1) - dy * (r.2 - a.0),
            dx > 0,
            r.1 < r.3,
    ;
    if dy == 0 {
        assert(s0 <= 0 && s2 >= 0) by (nonlinear_arith)
            requires
                s0 == dx * (r.1 - a.1) - dy * (r.0 - a.0),
                s2 == dx * (r.3 - a.1) - dy * (r.0 - a.0),
                dy == 0,
                dx > 0,
                r.1 <= a.1 <= r.3,
        ;
    }
    if s0 <= 0 && s2 >= 0 {
        lemma_passes(a, b, r.0, r.1, r.3);
        lemma_swapped(a, b, (r.0, r.1), (r.0, r.3));
    } else if s0 > 0 {
        // The line passes below the near corner, and not below the far one.
        assert(s1 <= 0);
        assert(dy > 0 && a.1 < r.1) by (nonlinear_arith)
            requires
                s0 == dx * (r.1 - a.1) - dy * (r.0 - a.0),
                s1 == dx * (r.1 - a.1) - dy * (r.2 - a.0),
                s0 > 0,
                s1 <= 0,
                dx > 0,
                a.0 < r.0 < r.2,
        ;
        let (u, v) = (crossed(a), crossed(b));
        lemma_crossed_side(a, b, (r.0, r.1));
        lemma_crossed_side(a, b, (r.2, r.1));
        lemma_passes(u, v, r.1, r.0, r.2);
        lemma_crossed(a, b, (r.0, r.1), (r.2, r.1));
    } else {
        // The line passes above the near corner, and not above the far one.
        assert(s2 < 0 && s3 >= 0);
        assert(dy < 0 && a.1 > r.3) by (nonlinear_arith)
            requires
                s2 == dx * (r.3 - a.1) - dy * (r.0 - a.0),
                s3 == dx * (r.3 - a.1) - dy * (r.2 - a.0),
                s2 < 0,
                s3 >= 0,
                dx > 0,
                a.0 < r.0 < r.2,
        ;
        let (u, v) = (mirrored(crossed(a)), mirrored(crossed(b)));
        lemma_crossed_side(a, b, (r.0, r.3));
        lemma_crossed_side(a, b, (r.2, r.3));
        lemma_mirrored_side(crossed(a), crossed(b), crossed((r.0, r.3)));
        lemma_mirrored_side(crossed(a), crossed(b), crossed((r.2, r.3)));
        lemma_passes(u, v, -r.3, r.0, r.2);
        lemma_mirrored(crossed(a), crossed(b), crossed((r.0, r.3)), crossed((r.2, r.3)));
        lemma_crossed(a, b, (r.0, r.3), (r.2, r.3));
        lemma_swapped(a, b, (r.0, r.3), (r.2, r.3));
    }
}

/// The same from any side.
pub(crate) proof fn lemma_from_outside(a: (int, int), b: (int, int), r: (int, int, int, int))
    requires
        r.0 < r.2,
        r.1 < r.3,
        !(r.0 <= a.0 <= r.2 && r.1 <= a.1 <= r.3),
        meets(a, b, r),
    ensures
        meets_side(a, b, r),
{
    let (c0, c1) = ((r.0, r.1), (r.2, r.1));
    let (c2, c3) = ((r.2, r.3), (r.0, r.3));
    if a.0 < r.0 {
        lemma_from_left(a, b, r);
    } else if a.0 > r.2 {
        let m = (-r.2, r.1, -r.0, r.3);
        lemma_mirrored_side(a, b, c0);
        lemma_mirrored_side(a, b, c1);
        lemma_mirrored_side(a, b, c2);
        lemma_mirrored_side(a, b, c3);
        lemma_from_left(mirrored(a), mirrored(b), m);
        lemma_mirrored_rect(a, b, r);
    } else {
        let t = (r.1, r.0, r.3, r.2);
        let (u, v) = (crossed(a), crossed(b));
        lemma_crossed_side(a, b, c0);
        lemma_crossed_side(a, b, c1);
        lemma_crossed_side(a, b, c2);
        lemma_crossed_side(a, b, c3);
        assert(meets(u, v, t));
        if a.1 < r.1 {
            lemma_from_left(u, v, t);
        } else {
            let m = (-t.2, t.1, -t.0, t.3);
            lemma_mirrored_side(u, v, crossed(c0));
            lemma_mirrored_side(u, v, crossed(c1));
            lemma_mirrored_side(u, v, crossed(c2));
            lemma_mirrored_side(u, v, crossed(c3));
            lemma_from_left(mirrored(u), mirrored(v), m);
            lemma_mirrored_rect(u, v, t);
        }
        lemma_crossed(a, b, c0, c1);
        lemma_crossed(a, b, c1, c2);
        lemma_crossed(a, b, c2, c3);
        lemma_crossed(a, b, c3, c0);
        lemma_swapped(u, v, crossed(c0), crossed(c1));
        lemma_swapped(u, v, crossed(c1), crossed(c2));
        lemma_swapped(u, v, crossed(c2), crossed(c3));
        lemma_swapped(u, v, crossed(c3), crossed(c0));
    }
}

proof fn lemma_mirrored_rect(a: (int, int), b: (int, int), r: (int, int, int, int))
    ensures
        meets_side(mirrored(a), mirrored(b), (-r.2, r.1, -r.0, r.3)) == meets_side(a, b, r),
{
    let (c0, c1) = ((r.0, r.1), (r.2, r.1));
    let (c2, c3) = ((r.2, r.3), (r.0, r.3));
    let (u, v) = (mirrored(a), mirrored(b));
    lemma_mirrored(a, b, c0, c1);
    lemma_mirrored(a, b, c1, c2);
    lemma_mirrored(a, b, c2, c3);
    lemma_mirrored(a, b, c3, c0);
    lemma_swapped(u, v, mirrored(c0), mirrored(c1));
    lemma_swapped(u, v, mirrored(c1), mirrored(c2));
    lemma_swapped(u, v, mirrored(c2), mirrored(c3));
    lemma_swapped(u, v, mirrored(c3), mirrored(c0));
}

pub(crate) proof fn lemma_on_side(p: (int, int), q: (int, int), r: (int, int, int, int))
    requires
        r.0 <= p.0 <= r.2,
        r.1 <= p.1 <= r.3,
        p.0 == r.0 || p.0 == r.2 || p.1 == r.1 || p.1 == r.3,
    ensures
        meets_side(p, q, r),
{
    assert(forall|x: int| #[trigger] (x * 0) == 0) by (nonlinear_arith);
    assert(forall|x: int| #[trigger] (0 * x) == 0) by (nonlinear_arith);
    if p.0 == r.0 {
        assert(on_segment(p, (r.0, r.3), (r.0, r.1)));
    } else if p.0 == r.2 {
        assert(on_segment(p, (r.2, r.1), (r.2, r.3)));
    } else if p.1 == r.1 {
        assert(on_segment(p, (r.0, r.1), (r.2, r.1)));
    } else {
        assert(on_segment(p, (r.2, r.3), (r.0, r.3)));
    }
}

} // verus!
