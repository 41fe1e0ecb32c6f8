//! The octagon a slanted wire occupies.

use crate::geom::{fits_i32, half, halve, pt, widen, wpt, Point, WidePoint};
use crate::rdl::obstacle::{ring_of, wide_ring, wide_ring_of};
use crate::rounding::{
    is_whole, lemma_rounded_bounds, lemma_rounded_down, lemma_rounded_falls, lemma_rounded_shift,
    round_quotient, rounded, split_whole, whole_part,
};
use vstd::arithmetic::power2::pow2;
use vstd::prelude::*;

verus! {

/// The square root of two in double precision, in units of `2^-52`.
pub const ROOT_TWO: u128 = 6369051672525773;

/// The first double-precision significand with one digit too many.
pub const DOUBLE_TOP: u128 = 0x20_0000_0000_0000;

/// The exponent of the smallest double-precision unit.
pub const DOUBLE_LEAST: i32 = -1074;

/// `2 * a` over the square root of two, divided in double precision and then rounded up to a whole
/// number.
pub open spec fn chord(a: int) -> int {
    let (k, q) = rounded(
        if a < 0 { 2 * (-a) } else { 2 * a },
        ROOT_TWO as int,
        52,
        DOUBLE_TOP as int,
        DOUBLE_LEAST as int,
    );
    if a < 0 {
        -whole_part(k, q)
    } else if is_whole(k, q) {
        whole_part(k, q)
    } else {
        whole_part(k, q) + 1
    }
}

/// The octagon around two centres, as a closed ring, first point repeated last: the corners lie
/// `a` out in one direction and `b` in the other. The sides that join the two centres' halves run
/// past the higher centre on the right where that is the one further right, and past the lower one
/// otherwise.
pub open spec fn corners(low: (int, int), high: (int, int), a: int, b: int) -> Seq<(int, int)> {
    let right = high.0 > low.0;
    let (e, w) = if right {
        (high, low)
    } else {
        (low, high)
    };
    seq![
        (low.0 - b, low.1 - a),
        (low.0 + b, low.1 - a),
        (e.0 + a, e.1 - b),
        (e.0 + a, e.1 + b),
        (high.0 + b, high.1 + a),
        (high.0 - b, high.1 + a),
        (w.0 - a, w.1 + b),
        (w.0 - a, w.1 - b),
        (low.0 - b, low.1 - a),
    ]
}

/// The point with the smaller y; of two with the same, the first.
pub open spec fn lower(p: (int, int), q: (int, int)) -> (int, int) {
    if p.1 > q.1 {
        q
    } else {
        p
    }
}

/// The point with the larger y; of two with the same, the second.
pub open spec fn upper(p: (int, int), q: (int, int)) -> (int, int) {
    if p.1 > q.1 {
        p
    } else {
        q
    }
}

/// The plain octagon of a given width around two centres.
pub open spec fn octagon(p: (int, int), q: (int, int), width: int) -> Seq<(int, int)> {
    let a = half(width);
    corners(lower(p, q), upper(p, q), a, chord(a) - a)
}

/// The octagon that a slanted wire sweeps: the plain one of twice the distance, with the four
/// corners on the wire's flanks moved out to the full distance.
pub open spec fn swept(p: (int, int), q: (int, int), dist: int) -> Seq<(int, int)> {
    let (low, high) = (lower(p, q), upper(p, q));
    let ring = octagon(p, q, 2 * dist);
    if high.0 > low.0 {
        ring.update(1, (low.0 + dist, ring[1].1)).update(2, (ring[2].0, high.1 - dist)).update(
            5,
            (high.0 - dist, ring[5].1),
        ).update(6, (ring[6].0, low.1 + dist))
    } else {
        ring.update(3, (ring[3].0, low.1 + dist)).update(4, (high.0 + dist, ring[4].1)).update(
            7,
            (ring[7].0, high.1 - dist),
        ).update(8, (low.0 - dist, ring[8].1)).update(0, (low.0 - dist, ring[8].1))
    }
}

/// Every point of the ring fits machine coordinates.
pub open spec fn ring_fits(ring: Seq<(int, int)>) -> bool {
    forall|i: int| 0 <= i < ring.len() ==> fits_i32((#[trigger] ring[i]).0) && fits_i32(ring[i].1)
}

/// [`chord`], which stays within `2^37`.
fn chord_of(a: i64) -> (c: i64)
    requires
        -0x4_0000_0000 <= a <= 0x4_0000_0000,
    ensures
        c == chord(a as int),
        -0x40_0000_0000 <= c <= 0x40_0000_0000,
{
    let n: u128 = if a < 0 { (2 * (-a)) as u128 } else { (2 * a) as u128 };
    assert(n * DOUBLE_TOP <= 0x8_0000_0000 * 0x20_0000_0000_0000) by (nonlinear_arith)
        requires
            n <= 0x8_0000_0000,
            DOUBLE_TOP == 0x20_0000_0000_0000,
    ;
    let (k, q) = round_quotient(n, ROOT_TWO, 52, DOUBLE_TOP, DOUBLE_LEAST);
    proof {
        lemma_chord_unit(n as int);
        let p = pow2((-q) as nat) as int;
        vstd::arithmetic::power2::lemma2_to64();
        vstd::arithmetic::power2::lemma2_to64_rest();
        if -q > 16 {
            vstd::arithmetic::power2::lemma_pow2_strictly_increases(16, (-q) as nat);
        }
        assert(p >= 0x1_0000);
        assert(0 <= k as int / p <= k as int / 0x1_0000) by {
            vstd::arithmetic::div_mod::lemma_div_is_ordered_by_denominator(
                k as int,
                0x1_0000,
                p,
            );
            vstd::arithmetic::div_mod::lemma_div_pos_is_pos(k as int, p);
        }
    }
    let (w, exact) = split_whole(k, q);
    if a < 0 {
        -(w as i64)
    } else if exact {
        w as i64
    } else {
        w as i64 + 1
    }
}

/// The quotient's unit is far below one.
proof fn lemma_chord_unit(n: int)
    requires
        0 <= n <= 0x8_0000_0000,
    ensures
        rounded(n, ROOT_TWO as int, 52, DOUBLE_TOP as int, DOUBLE_LEAST as int).1 <= -16,
{
    let (d, top, least) = (ROOT_TWO as int, DOUBLE_TOP as int, DOUBLE_LEAST as int);
    vstd::arithmetic::power2::lemma2_to64();
    vstd::arithmetic::power2::lemma2_to64_rest();
    vstd::arithmetic::power2::lemma_pow2_adds(34, 34);
    let p = pow2(68) as int;
    assert(p == 0x10_0000_0000_0000_0000);
    assert(n * p < top * d) by (nonlinear_arith)
        requires
            0 <= n <= 0x8_0000_0000,
            p == 0x10_0000_0000_0000_0000,
            top == 0x20_0000_0000_0000,
            d == 6369051672525773,
    ;
    assert(n * p >= 0) by (nonlinear_arith)
        requires
            n >= 0,
            p >= 0,
    ;
    lemma_rounded_down(n, d, 52, top, least, 68);
    lemma_rounded_falls(n * p, d, 52 - 68, top, least);
}

/// The plain octagon, with room to spare.
fn octagon_ring(p: Point, q: Point, width: i64) -> (ring: Vec<WidePoint>)
    requires
        -0x8_0000_0000 <= width <= 0x8_0000_0000,
    ensures
        wide_ring_of(ring@) == octagon(pt(p), pt(q), width as int),
        wide_ring(ring@),
        ring.len() == 9,
{
    let (low, high) = if p.1 > q.1 {
        (widen(q), widen(p))
    } else {
        (widen(p), widen(q))
    };
    let a: i64 = halve(width);
    let b: i64 = chord_of(a) - a;
    let (e, w) = if high.0 > low.0 {
        (high, low)
    } else {
        (low, high)
    };
    let mut ring: Vec<WidePoint> = Vec::new();
    ring.push((low.0 - b, low.1 - a));
    ring.push((low.0 + b, low.1 - a));
    ring.push((e.0 + a, e.1 - b));
    ring.push((e.0 + a, e.1 + b));
    ring.push((high.0 + b, high.1 + a));
    ring.push((high.0 - b, high.1 + a));
    ring.push((w.0 - a, w.1 + b));
    ring.push((w.0 - a, w.1 - b));
    ring.push((low.0 - b, low.1 - a));
    assert(wide_ring_of(ring@) =~= octagon(pt(p), pt(q), width as int));
    ring
}

/// The swept octagon, with room to spare.
pub fn swept_ring(p: Point, q: Point, dist: i64) -> (ring: Vec<WidePoint>)
    requires
        -0x4_0000_0000 <= dist <= 0x4_0000_0000,
    ensures
        wide_ring_of(ring@) == swept(pt(p), pt(q), dist as int),
        wide_ring(ring@),
        ring.len() == 9,
{
    let (low, high) = if p.1 > q.1 {
        (widen(q), widen(p))
    } else {
        (widen(p), widen(q))
    };
    let mut ring = octagon_ring(p, q, 2 * dist);
    let ghost plain = wide_ring_of(ring@);
    if high.0 > low.0 {
        let (p1, p2, p5, p6) = (ring[1], ring[2], ring[5], ring[6]);
        ring.set(1, (low.0 + dist, p1.1));
        ring.set(2, (p2.0, high.1 - dist));
        ring.set(5, (high.0 - dist, p5.1));
        ring.set(6, (p6.0, low.1 + dist));
    } else {
        let (p3, p4, p7, p8) = (ring[3], ring[4], ring[7], ring[8]);
        ring.set(3, (p3.0, low.1 + dist));
        ring.set(4, (high.0 + dist, p4.1));
        ring.set(7, (p7.0, high.1 - dist));
        ring.set(8, (low.0 - dist, p8.1));
        ring.set(0, (low.0 - dist, p8.1));
    }
    assert(wide_ring_of(ring@) =~= swept(pt(p), pt(q), dist as int));
    ring
}

/// The ring in machine coordinates.
fn narrow(ring: &Vec<WidePoint>) -> (points: Vec<Point>)
    requires
        ring_fits(wide_ring_of(ring@)),
    ensures
        ring_of(points@) == wide_ring_of(ring@),
{
    let mut points: Vec<Point> = Vec::new();
    let mut i: usize = 0;
    while i < ring.len()
        invariant
            i <= ring.len(),
            ring_fits(wide_ring_of(ring@)),
            points.len() == i,
            forall|k: int| 0 <= k < i ==> pt(#[trigger] points@[k]) == wpt(ring@[k]),
        decreases ring.len() - i,
    {
        let (x, y) = ring[i];
        assert(wide_ring_of(ring@)[i as int] == (x as int, y as int));
        points.push((x as i32, y as i32));
        i += 1;
    }
    assert(ring_of(points@) =~= wide_ring_of(ring@));
    points
}

/// The plain octagon of a wire's width around two centres: a closed ring of nine points, the first
/// repeated last.
///
/// Half the width truncates, and the other offset is rounded up in double precision and then
/// truncated: computing either exactly is a different polygon.
pub fn oct_points(p0: Point, p1: Point, width: i32) -> (ring: Vec<Point>)
    requires
        ring_fits(octagon(pt(p0), pt(p1), width as int)),
    ensures
        ring_of(ring@) == octagon(pt(p0), pt(p1), width as int),
{
    let wide = octagon_ring(p0, p1, width as i64);
    narrow(&wide)
}

/// The octagon that a slanted wire sweeps at a distance `dist`: a closed ring of nine points, the
/// first repeated last.
pub fn edge_obstruction(p0: Point, p1: Point, dist: i32) -> (ring: Vec<Point>)
    requires
        ring_fits(swept(pt(p0), pt(p1), dist as int)),
    ensures
        ring_of(ring@) == swept(pt(p0), pt(p1), dist as int),
{
    let wide = swept_ring(p0, p1, dist as i64);
    narrow(&wide)
}

/// Both octagons are closed: the last point is the first.
pub proof fn law_octagons_close(p: (int, int), q: (int, int), d: int)
    ensures
        octagon(p, q, d).len() == 9,
        octagon(p, q, d)[8] == octagon(p, q, d)[0],
        swept(p, q, d).len() == 9,
        swept(p, q, d)[8] == swept(p, q, d)[0],
{
}

/// The chord of an octagon whose flat sides lie `a` out is the hypotenuse over two sides of `a`, rounded up: no
/// whole number that is as long is shorter, and none that is too short is as long as the chord plus one.
pub proof fn law_chord(a: int, m: int)
    requires
        0 <= a <= 0x4_0000_0000,
        0 <= m <= 0x8_0000_0000,
    ensures
        chord(a) >= 0,
        2 * (a * a) <= m * m ==> chord(a) <= m,
        a <= 0x200_0000 && m * m < 2 * (a * a) ==> m <= chord(a),
{
    let (r, u) = (ROOT_TWO as int, 0x10_0000_0000_0000int);
    let n = 2 * a * u;
    assert(r * r == 40564819207303346393761349247529 && u * u == 20282409603651670423947251286016)
        by (nonlinear_arith)
        requires
            r == 6369051672525773,
            u == 0x10_0000_0000_0000,
    ;
    assert(0 * r <= n <= 0x8_0000_0000 * r) by (nonlinear_arith)
        requires
            n == 2 * a * u,
            0 <= a <= 0x4_0000_0000,
            0 < u <= r,
    ;
    lemma_chord_bounds(a, 0, 0x8_0000_0000);
    assert(m * r >= 0) by (nonlinear_arith)
        requires
            m >= 0,
            r > 0,
    ;
    assert(n * n == 4 * (a * a) * (u * u) && (m * r) * (m * r) == (m * m) * (r * r))
        by (nonlinear_arith)
        requires
            n == 2 * a * u,
    ;
    if 2 * (a * a) <= m * m {
        assert(4 * (a * a) * (u * u) <= (m * m) * (r * r)) by (nonlinear_arith)
            requires
                2 * (a * a) <= m * m,
                2 * (u * u) <= r * r,
                u * u >= 0,
                a * a >= 0,
        ;
        assert(n <= m * r) by (nonlinear_arith)
            requires
                n * n <= (m * r) * (m * r),
                m * r >= 0,
        ;
        lemma_chord_bounds(a, 0, m);
    } else if a <= 0x200_0000 {
        let (s, t) = (a * a, m * m);
        assert(0 <= s <= 0x4_0000_0000_0000) by (nonlinear_arith)
            requires
                s == a * a,
                0 <= a <= 0x200_0000,
        ;
        assert(t * (r * r) <= (2 * s - 1) * (r * r)) by (nonlinear_arith)
            requires
                t <= 2 * s - 1,
                r * r >= 0,
        ;
        assert((2 * s - 1) * 40564819207303346393761349247529 <= 4 * s * 20282409603651670423947251286016);
        assert((2 * s - 1) * (r * r) <= 4 * s * (u * u));
        assert(m * r <= n) by (nonlinear_arith)
            requires
                (m * r) * (m * r) <= n * n,
                n >= 0,
        ;
        lemma_chord_bounds(a, m, 0x8_0000_0000);
    }
}

/// The chord lies between the whole numbers between which the quotient lies that it is rounded up from.
proof fn lemma_chord_bounds(a: int, low: int, high: int)
    requires
        0 <= a <= 0x4_0000_0000,
        low * (ROOT_TWO as int) <= 2 * a * 0x10_0000_0000_0000 <= high * (ROOT_TWO as int),
    ensures
        low <= chord(a) <= high,
{
    let (r, top, least) = (ROOT_TWO as int, DOUBLE_TOP as int, DOUBLE_LEAST as int);
    vstd::arithmetic::power2::lemma2_to64();
    vstd::arithmetic::power2::lemma2_to64_rest();
    assert(pow2(52) == 0x10_0000_0000_0000);
    let n = (2 * a) * pow2(52);
    lemma_rounded_shift(2 * a, r, 52, top, least, 52);
    assert(n < top * r) by (nonlinear_arith)
        requires
            n == (2 * a) * 0x10_0000_0000_0000,
            0 <= a <= 0x4_0000_0000,
            top == 0x20_0000_0000_0000,
            r == 6369051672525773,
    ;
    assert(n >= 0);
    lemma_rounded_bounds(n, r, 0, top, least, low, high);
    let (k, e) = rounded(2 * a, r, 52, top, least);
    assert(rounded(n, r, 0, top, least) == (k, e));
    let p = pow2((-e) as nat) as int;
    vstd::arithmetic::power2::lemma_pow2_pos((-e) as nat);
    if e == 0 {
        assert(k * pow2(0) == k && low * p == low && high * p == high) by (nonlinear_arith)
            requires
                pow2(0) == 1,
                p == 1,
        ;
    } else {
        let (w, rest) = (k / p, k % p);
        vstd::arithmetic::div_mod::lemma_fundamental_div_mod(k, p);
        vstd::arithmetic::div_mod::lemma_mod_bound(k, p);
        assert(low <= w) by (nonlinear_arith)
            requires
                low * p <= k,
                k == p * w + rest,
                0 <= rest < p,
        ;
        assert(w <= high && (rest > 0 ==> w < high)) by (nonlinear_arith)
            requires
                k <= high * p,
                k == p * w + rest,
                0 <= rest < p,
        ;
    }
}

/// The smallest box that holds the two points, grown by `d` on every side.
pub open spec fn frame(p: (int, int), q: (int, int), d: int) -> (int, int, int, int) {
    (
        if p.0 < q.0 { p.0 - d } else { q.0 - d },
        if p.1 < q.1 { p.1 - d } else { q.1 - d },
        if p.0 > q.0 { p.0 + d } else { q.0 + d },
        if p.1 > q.1 { p.1 + d } else { q.1 + d },
    )
}

/// The ring lies in the box and touches each of its four sides.
pub open spec fn fills_frame(ring: Seq<(int, int)>, f: (int, int, int, int)) -> bool {
    &&& forall|i: int|
        0 <= i < ring.len() ==> f.0 <= (#[trigger] ring[i]).0 <= f.2 && f.1 <= ring[i].1 <= f.3
    &&& exists|i: int| 0 <= i < ring.len() && (#[trigger] ring[i]).0 == f.0
    &&& exists|i: int| 0 <= i < ring.len() && (#[trigger] ring[i]).1 == f.1
    &&& exists|i: int| 0 <= i < ring.len() && (#[trigger] ring[i]).0 == f.2
    &&& exists|i: int| 0 <= i < ring.len() && (#[trigger] ring[i]).1 == f.3
}

/// The octagon of a slanted wire reaches as far beyond its two centres as half its width, on every side;
/// the one that is swept at a distance reaches that far. The second does not depend on which of two
/// centres at different heights comes first.
pub proof fn law_octagon_reach(p: (int, int), q: (int, int), d: int)
    requires
        0 <= d <= 0x4_0000_0000,
        p.0 != q.0,
        p.1 != q.1,
    ensures
        fills_frame(octagon(p, q, 2 * d), frame(p, q, d)),
        fills_frame(swept(p, q, d), frame(p, q, d)),
        swept(p, q, d) == swept(q, p, d),
        octagon(p, q, d) == octagon(q, p, d),
{
    let (ring, wide) = (octagon(p, q, 2 * d), swept(p, q, d));
    let f = frame(p, q, d);
    assert(2 * (d * d) <= (2 * d) * (2 * d)) by (nonlinear_arith);
    law_chord(d, 2 * d);
    law_chord(d, 0);
    assert(half(2 * d) == d);
    assert(ring[0].1 == f.1 && ring[2].0 == f.2 && ring[4].1 == f.3 && ring[6].0 == f.0);
    assert(wide[0].1 == f.1 && wide[2].0 == f.2 && wide[4].1 == f.3 && wide[6].0 == f.0);
}

/// Where the corners of the octagons of a slanted wire lie: beside each of its two ends, as far out as half the
/// width one way and as far as the chord is longer than that the other. The one that is swept has
/// its four corners beside the wire as far out both ways as the distance, so that its flanks run
/// along the wire.
pub proof fn law_octagon_corners(p: (int, int), q: (int, int), d: int)
    requires
        d >= 0,
        p.1 < q.1,
        p.0 != q.0,
    ensures
        ({
            let c = chord(d) - d;
            let (west, east) = if p.0 < q.0 {
                (p, q)
            } else {
                (q, p)
            };
            &&& octagon(p, q, 2 * d) == seq![
                (p.0 - c, p.1 - d),
                (p.0 + c, p.1 - d),
                (east.0 + d, east.1 - c),
                (east.0 + d, east.1 + c),
                (q.0 + c, q.1 + d),
                (q.0 - c, q.1 + d),
                (west.0 - d, west.1 + c),
                (west.0 - d, west.1 - c),
                (p.0 - c, p.1 - d),
            ]
            &&& p.0 < q.0 ==> swept(p, q, d) == seq![
                (p.0 - c, p.1 - d),
                (p.0 + d, p.1 - d),
                (q.0 + d, q.1 - d),
                (q.0 + d, q.1 + c),
                (q.0 + c, q.1 + d),
                (q.0 - d, q.1 + d),
                (p.0 - d, p.1 + d),
                (p.0 - d, p.1 - c),
                (p.0 - c, p.1 - d),
            ]
            &&& p.0 > q.0 ==> swept(p, q, d) == seq![
                (p.0 - d, p.1 - d),
                (p.0 + c, p.1 - d),
                (p.0 + d, p.1 - c),
                (p.0 + d, p.1 + d),
                (q.0 + d, q.1 + d),
                (q.0 - c, q.1 + d),
                (q.0 - d, q.1 + c),
                (q.0 - d, q.1 - d),
                (p.0 - d, p.1 - d),
            ]
        }),
{
    assert(half(2 * d) == d);
}

} // verus!
