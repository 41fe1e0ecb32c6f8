//! Points, rectangles and segments in whole database units.
//!
//! Every question here is answered in integers wide enough that nothing rounds or overflows.

use vstd::prelude::*;

verus! {

/// A point, in database units.
pub type Point = (i32, i32);

/// A rectangle: its lower-left and its upper-right corner.
pub type Rect = (i32, i32, i32, i32);

/// A point with room to spare: far more than any sum of coordinates and margins needs.
pub type WidePoint = (i64, i64);

/// A rectangle with room to spare.
pub type WideRect = (i64, i64, i64, i64);

/// The bound that wide coordinates keep.
pub const WIDE: i64 = 0x100_0000_0000;

/// The point as a pair of whole numbers.
pub open spec fn pt(p: Point) -> (int, int) {
    (p.0 as int, p.1 as int)
}

/// The rectangle as whole numbers.
pub open spec fn rt(r: Rect) -> (int, int, int, int) {
    (r.0 as int, r.1 as int, r.2 as int, r.3 as int)
}

pub open spec fn wpt(p: WidePoint) -> (int, int) {
    (p.0 as int, p.1 as int)
}

pub open spec fn wrt(r: WideRect) -> (int, int, int, int) {
    (r.0 as int, r.1 as int, r.2 as int, r.3 as int)
}

pub open spec fn wide_point(p: WidePoint) -> bool {
    -WIDE <= p.0 <= WIDE && -WIDE <= p.1 <= WIDE
}

pub open spec fn wide_rect(r: WideRect) -> bool {
    -WIDE <= r.0 <= WIDE && -WIDE <= r.1 <= WIDE && -WIDE <= r.2 <= WIDE && -WIDE <= r.3 <= WIDE
}

pub open spec fn fits_i32(v: int) -> bool {
    i32::MIN <= v <= i32::MAX
}

pub open spec fn min(a: int, b: int) -> int {
    if a < b {
        a
    } else {
        b
    }
}

pub open spec fn max(a: int, b: int) -> int {
    if a > b {
        a
    } else {
        b
    }
}

/// `v / 2`, rounded towards zero.
pub open spec fn half(v: int) -> int {
    if v < 0 {
        -((-v) / 2)
    } else {
        v / 2
    }
}

/// Which side of the line from `o` through `p` the point `q` lies on: positive to the left,
/// negative to the right, zero on the line.
pub open spec fn side(o: (int, int), p: (int, int), q: (int, int)) -> int {
    (p.0 - o.0) * (q.1 - o.1) - (p.1 - o.1) * (q.0 - o.0)
}

/// `p` lies in the box that `a` and `b` span.
pub open spec fn in_span(p: (int, int), a: (int, int), b: (int, int)) -> bool {
    &&& min(a.0, b.0) <= p.0 <= max(a.0, b.0)
    &&& min(a.1, b.1) <= p.1 <= max(a.1, b.1)
}

/// `p` lies on the segment from `a` to `b`, its ends included.
pub open spec fn on_segment(p: (int, int), a: (int, int), b: (int, int)) -> bool {
    side(a, b, p) == 0 && in_span(p, a, b)
}

/// The two values have strictly opposite signs.
pub open spec fn opposite(a: int, b: int) -> bool {
    (a > 0 && b < 0) || (a < 0 && b > 0)
}

/// The segments `a`-`b` and `c`-`d` share a point: they cross, or an end of one lies on the other.
pub open spec fn segments_meet(a: (int, int), b: (int, int), c: (int, int), d: (int, int)) -> bool {
    ||| opposite(side(c, d, a), side(c, d, b)) && opposite(side(a, b, c), side(a, b, d))
    ||| on_segment(a, c, d)
    ||| on_segment(b, c, d)
    ||| on_segment(c, a, b)
    ||| on_segment(d, a, b)
}

/// The segment from `p` to `q` and the closed rectangle `r` share a point: their boxes overlap,
/// and, where the segment is slanted, the rectangle does not lie wholly to one side of its line.
pub open spec fn meets(p: (int, int), q: (int, int), r: (int, int, int, int)) -> bool {
    &&& max(p.0, q.0) >= r.0 && min(p.0, q.0) <= r.2
    &&& max(p.1, q.1) >= r.1 && min(p.1, q.1) <= r.3
    &&& p.0 == q.0 || p.1 == q.1 || {
        let s0 = side(p, q, (r.0, r.1));
        let s1 = side(p, q, (r.2, r.1));
        let s2 = side(p, q, (r.0, r.3));
        let s3 = side(p, q, (r.2, r.3));
        !(s0 > 0 && s1 > 0 && s2 > 0 && s3 > 0) && !(s0 < 0 && s1 < 0 && s2 < 0 && s3 < 0)
    }
}

/// The rectangle grown by `d` on every side.
pub open spec fn grown(r: (int, int, int, int), d: int) -> (int, int, int, int) {
    (r.0 - d, r.1 - d, r.2 + d, r.3 + d)
}

/// The square of half-side `d` around a point.
pub open spec fn around(p: (int, int), d: int) -> (int, int, int, int) {
    (p.0 - d, p.1 - d, p.0 + d, p.1 + d)
}

/// Whether two points are the same.
pub fn same_point(a: Point, b: Point) -> (same: bool)
    ensures
        same == (a == b),
{
    a.0 == b.0 && a.1 == b.1
}

/// The same points again.
pub fn copy_points(points: &[Point]) -> (copy: Vec<Point>)
    ensures
        copy@ == points@,
{
    let mut copy: Vec<Point> = Vec::new();
    let mut i: usize = 0;
    while i < points.len()
        invariant
            i <= points.len(),
            copy@ == points@.take(i as int),
        decreases points.len() - i,
    {
        copy.push(points[i]);
        assert(copy@ =~= points@.take(i + 1));
        i += 1;
    }
    assert(copy@ =~= points@);
    copy
}

/// The point with room to spare.
pub fn widen(p: Point) -> (w: WidePoint)
    ensures
        wpt(w) == pt(p),
        wide_point(w),
{
    (p.0 as i64, p.1 as i64)
}

/// `v / 2`, rounded towards zero.
pub fn halve(v: i64) -> (h: i64)
    ensures
        h == half(v as int),
{
    v / 2
}

/// Which side of the line from `o` through `p` the point `q` lies on.
pub fn turn(o: WidePoint, p: WidePoint, q: WidePoint) -> (s: i128)
    requires
        wide_point(o),
        wide_point(p),
        wide_point(q),
    ensures
        s == side(wpt(o), wpt(p), wpt(q)),
{
    let a: i128 = p.0 as i128 - o.0 as i128;
    let b: i128 = q.1 as i128 - o.1 as i128;
    let c: i128 = p.1 as i128 - o.1 as i128;
    let d: i128 = q.0 as i128 - o.0 as i128;
    let ghost w: int = 0x200_0000_0000;
    assert(-w * w <= a * b <= w * w && -w * w <= c * d <= w * w) by (nonlinear_arith)
        requires
            -w <= a <= w,
            -w <= b <= w,
            -w <= c <= w,
            -w <= d <= w,
    ;
    assert(w * w == 0x4_0000_0000_0000_0000_0000) by (nonlinear_arith)
        requires
            w == 0x200_0000_0000,
    ;
    a * b - c * d
}

fn within(p: WidePoint, a: WidePoint, b: WidePoint) -> (inside: bool)
    ensures
        inside == in_span(wpt(p), wpt(a), wpt(b)),
{
    let (x0, x1) = if a.0 < b.0 { (a.0, b.0) } else { (b.0, a.0) };
    let (y0, y1) = if a.1 < b.1 { (a.1, b.1) } else { (b.1, a.1) };
    x0 <= p.0 && p.0 <= x1 && y0 <= p.1 && p.1 <= y1
}

/// Do the two segments share a point?
pub fn segments_touch(a: WidePoint, b: WidePoint, c: WidePoint, d: WidePoint) -> (touch: bool)
    requires
        wide_point(a),
        wide_point(b),
        wide_point(c),
        wide_point(d),
    ensures
        touch == segments_meet(wpt(a), wpt(b), wpt(c), wpt(d)),
{
    let d1: i128 = turn(c, d, a);
    let d2: i128 = turn(c, d, b);
    let d3: i128 = turn(a, b, c);
    let d4: i128 = turn(a, b, d);
    if ((d1 > 0 && d2 < 0) || (d1 < 0 && d2 > 0)) && ((d3 > 0 && d4 < 0) || (d3 < 0 && d4 > 0)) {
        return true;
    }
    (d1 == 0 && within(a, c, d)) || (d2 == 0 && within(b, c, d)) || (d3 == 0 && within(c, a, b))
        || (d4 == 0 && within(d, a, b))
}

/// Does the segment from `p` to `q` touch the rectangle?
pub fn touches_rect(p: WidePoint, q: WidePoint, r: WideRect) -> (touch: bool)
    requires
        wide_point(p),
        wide_point(q),
        wide_rect(r),
    ensures
        touch == meets(wpt(p), wpt(q), wrt(r)),
{
    let (x0, x1) = if p.0 < q.0 { (p.0, q.0) } else { (q.0, p.0) };
    let (y0, y1) = if p.1 < q.1 { (p.1, q.1) } else { (q.1, p.1) };
    if x1 < r.0 || x0 > r.2 || y1 < r.1 || y0 > r.3 {
        return false;
    }
    if p.0 == q.0 || p.1 == q.1 {
        return true;
    }
    let s0: i128 = turn(p, q, (r.0, r.1));
    let s1: i128 = turn(p, q, (r.2, r.1));
    let s2: i128 = turn(p, q, (r.0, r.3));
    let s3: i128 = turn(p, q, (r.2, r.3));
    !((s0 > 0 && s1 > 0 && s2 > 0 && s3 > 0) || (s0 < 0 && s1 < 0 && s2 < 0 && s3 < 0))
}

} // verus!
