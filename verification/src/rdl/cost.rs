//! How long an edge is and what it costs.

use crate::geom::{pt, Point};
use crate::single::{
    lemma_grows, lemma_of_int_unsigned, lemma_plus_one, lemma_scale_one, lemma_truncated_unsigned,
    lemma_unsigned, Single,
};
use vstd::prelude::*;

verus! {

/// The square of the distance between two points.
pub open spec fn square_length(a: (int, int), b: (int, int)) -> int {
    (a.0 - b.0) * (a.0 - b.0) + (a.1 - b.1) * (a.1 - b.1)
}

/// `r` is the square root of `n`, rounded down.
pub open spec fn is_root(n: int, r: int) -> bool {
    0 <= r && r * r <= n < (r + 1) * (r + 1)
}

/// The distance between two points, truncated to a whole unit.
pub open spec fn length(a: (int, int), b: (int, int)) -> int {
    choose|r: int| is_root(square_length(a, b), r)
}

/// A number has one root.
proof fn lemma_one_root(n: int, r: int, s: int)
    requires
        is_root(n, r),
        is_root(n, s),
    ensures
        r == s,
{
    if r < s {
        assert((r + 1) * (r + 1) <= s * s) by (nonlinear_arith)
            requires
                0 <= r + 1 <= s,
        ;
    } else if s < r {
        assert((s + 1) * (s + 1) <= r * r) by (nonlinear_arith)
            requires
                0 <= s + 1 <= r,
        ;
    }
}

/// `r` is the distance between two points where it is the root of the square of it.
pub proof fn lemma_length(a: (int, int), b: (int, int), r: int)
    requires
        is_root(square_length(a, b), r),
    ensures
        length(a, b) == r,
{
    lemma_one_root(square_length(a, b), r, length(a, b));
}

/// Squared distance: exact in integers, and all the ordering rules need.
pub fn squared(a: Point, b: Point) -> (d: i128)
    ensures
        d == square_length(pt(a), pt(b)),
        0 <= d <= 0x2_0000_0000_0000_0000,
{
    let dx: i128 = a.0 as i128 - b.0 as i128;
    let dy: i128 = a.1 as i128 - b.1 as i128;
    assert(0 <= dx * dx <= 0x1_0000_0000_0000_0000 && 0 <= dy * dy <= 0x1_0000_0000_0000_0000)
        by (nonlinear_arith)
        requires
            -0x1_0000_0000 <= dx <= 0x1_0000_0000,
            -0x1_0000_0000 <= dy <= 0x1_0000_0000,
    ;
    dx * dx + dy * dy
}

/// The distance between two points, truncated to a whole unit.
///
/// Truncating collapses distinct geometric distances onto the same integer, which makes ties in
/// the search common rather than rare; a more precise distance is a different router.
pub fn distance(p0: Point, p1: Point) -> (d: i64)
    ensures
        d == length(pt(p0), pt(p1)),
        is_root(square_length(pt(p0), pt(p1)), d as int),
        0 <= d < 0x2_0000_0000,
{
    let n: i128 = squared(p0, p1);
    let mut low: i128 = 0;
    let mut high: i128 = 0x2_0000_0000;
    while high - low > 1
        invariant
            0 <= low < high <= 0x2_0000_0000,
            low * low <= n < high * high,
        decreases high - low,
    {
        let mid: i128 = (low + high) / 2;
        assert(0 <= mid * mid <= 0x4_0000_0000_0000_0000) by (nonlinear_arith)
            requires
                0 <= mid <= 0x2_0000_0000,
        ;
        if mid * mid <= n {
            low = mid;
        } else {
            high = mid;
        }
    }
    proof {
        assert(high == low + 1);
        lemma_length(pt(p0), pt(p1), low as int);
    }
    low as i64
}

/// What an edge costs: its length times a scale, plus one where it is horizontal, all in single
/// precision and truncated once.
pub open spec fn weight(a: (int, int), b: (int, int), scale: Single) -> int {
    let bias: int = if a.1 == b.1 {
        1
    } else {
        0
    };
    scale.times(Single::of_int(length(a, b))).plus(Single::of_int(bias)).truncated(
        i64::MIN as int,
        i64::MAX as int,
    )
}

/// An edge's weight.
///
/// A horizontal edge costs one unit more than the same-length vertical one. It is not a physical
/// cost: it is a tie-break, and it is what stops two equally short routes from being chosen
/// arbitrarily. The whole expression is evaluated in single precision and truncated once:
/// truncating the product first and adding the bias afterwards is a different number whenever the
/// product lands just below an integer, which is what a restored edge's recovered scale produces.
pub fn edge_weight(p0: Point, p1: Point, scale: Single) -> (w: i64)
    ensures
        w == weight(pt(p0), pt(p1), scale),
{
    let bias: i64 = if p0.1 == p1.1 { 1 } else { 0 };
    scale.multiply(Single::from_int(distance(p0, p1))).add(Single::from_int(bias)).to_i64()
}

/// The scale that an edge of this weight is put back with.
pub open spec fn recovered(a: (int, int), b: (int, int), w: int) -> Single {
    Single::of_int(w).over(Single::of_int(length(a, b)))
}

/// The scale an edge is put back with, recovered by division.
///
/// The scale is not stored: the weight is divided by the distance to get it back. The round trip
/// does not return the original weight: a horizontal edge is stored as `d + 1`, so the recovered
/// scale is `(d + 1) / d`, and putting it back gives about `d + 2`. Vertical and slanted edges
/// carry no bias, recover a scale of exactly one, and are unchanged.
pub fn restore_scale(p0: Point, p1: Point, weight: i64) -> (scale: Single)
    ensures
        scale == recovered(pt(p0), pt(p1), weight as int),
{
    Single::from_int(weight).divide(Single::from_int(distance(p0, p1)))
}

/// No edge has a length below zero.
pub proof fn lemma_length_exists(a: (int, int), b: (int, int))
    ensures
        is_root(square_length(a, b), length(a, b)),
{
    let n = square_length(a, b);
    let (x, y) = (a.0 - b.0, a.1 - b.1);
    assert(n >= 0) by (nonlinear_arith)
        requires
            n == x * x + y * y,
    ;
    lemma_root_exists(n as nat);
    let r = choose|r: int| is_root(n, r);
    lemma_length(a, b, r);
}

proof fn lemma_root_exists(n: nat)
    ensures
        exists|r: int| is_root(n as int, r),
    decreases n,
{
    if n == 0 {
        assert(is_root(0, 0));
    } else {
        let m = (n - 1) as nat;
        lemma_root_exists(m);
        let r = choose|r: int| is_root(m as int, r);
        if n < (r + 1) * (r + 1) {
            assert(is_root(n as int, r));
        } else {
            assert((r + 2) * (r + 2) > (r + 1) * (r + 1)) by (nonlinear_arith)
                requires
                    r >= 0,
            ;
            assert(is_root(n as int, r + 1));
        }
    }
}

/// A scale that is not below zero makes no weight below zero.
pub proof fn lemma_weight_unsigned(a: (int, int), b: (int, int), scale: Single)
    requires
        scale.unsigned(),
    ensures
        0 <= weight(a, b, scale) <= i64::MAX,
{
    let bias: int = if a.1 == b.1 {
        1
    } else {
        0
    };
    lemma_length_exists(a, b);
    lemma_of_int_unsigned(length(a, b));
    lemma_of_int_unsigned(bias);
    lemma_unsigned(scale, Single::of_int(length(a, b)));
    let product = scale.times(Single::of_int(length(a, b)));
    lemma_unsigned(product, Single::of_int(bias));
    lemma_truncated_unsigned(
        product.plus(Single::of_int(bias)),
        i64::MIN as int,
        i64::MAX as int,
    );
}

/// A weight that is not below zero gives back a scale that is not.
pub proof fn lemma_recovered_unsigned(a: (int, int), b: (int, int), w: int)
    requires
        w >= 0,
    ensures
        recovered(a, b, w).unsigned(),
{
    lemma_length_exists(a, b);
    lemma_of_int_unsigned(w);
    lemma_of_int_unsigned(length(a, b));
    lemma_unsigned(Single::of_int(w), Single::of_int(length(a, b)));
}

/// The length of an edge is the distance of its ends in whole units, rounded down; of one along an axis
/// it is the distance itself.
pub proof fn law_length(a: (int, int), b: (int, int))
    ensures
        ({
            let l = length(a, b);
            let (dx, dy) = (b.0 - a.0, b.1 - a.1);
            &&& l >= 0
            &&& l * l <= dx * dx + dy * dy < (l + 1) * (l + 1)
            &&& dy == 0 ==> l == if dx < 0 {
                -dx
            } else {
                dx
            }
            &&& dx == 0 ==> l == if dy < 0 {
                -dy
            } else {
                dy
            }
        }),
{
    lemma_length_exists(a, b);
    let l = length(a, b);
    let (dx, dy) = (b.0 - a.0, b.1 - a.1);
    assert((a.0 - b.0) * (a.0 - b.0) == dx * dx && (a.1 - b.1) * (a.1 - b.1) == dy * dy)
        by (nonlinear_arith)
        requires
            dx == b.0 - a.0,
            dy == b.1 - a.1,
    ;
    let (m, n) = (
        if dx < 0 {
            -dx
        } else {
            dx
        },
        if dy < 0 {
            -dy
        } else {
            dy
        },
    );
    assert(m * m == dx * dx && n * n == dy * dy) by (nonlinear_arith)
        requires
            m == dx || m == -dx,
            n == dy || n == -dy,
    ;
    if dy == 0 {
        assert(dy * dy == 0) by (nonlinear_arith)
            requires
                dy == 0,
        ;
        assert(is_root(m * m, m)) by (nonlinear_arith)
            requires
                m >= 0,
        ;
        lemma_one_root(m * m, m, l);
    }
    if dx == 0 {
        assert(dx * dx == 0) by (nonlinear_arith)
            requires
                dx == 0,
        ;
        assert(is_root(n * n, n)) by (nonlinear_arith)
            requires
                n >= 0,
        ;
        lemma_one_root(n * n, n, l);
    }
}

/// A vertical or slanted edge of scale one is unchanged by being taken out and put back: the scale
/// recovered is exactly one.
pub proof fn law_unbiased_edge_restores(a: (int, int), b: (int, int))
    requires
        a.1 != b.1,
        length(a, b) < 0x2_0000_0000,
    ensures
        recovered(a, b, weight(a, b, Single::unity())) == Single::unity(),
{
    lemma_length_exists(a, b);
    lemma_apart(a, b);
    lemma_scale_one(length(a, b));
}

/// A horizontal edge costs one unit more than the same-length vertical one: each costs its length, and
/// the horizontal one the tie-break besides. So it is while lengths are kept to the unit.
pub proof fn law_horizontal_costs_one_more(a: (int, int), b: (int, int))
    requires
        a != b,
        length(a, b) < 0x100_0000,
    ensures
        weight(a, b, Single::unity()) == length(a, b) + if a.1 == b.1 {
            1int
        } else {
            0int
        },
{
    lemma_length_exists(a, b);
    lemma_apart(a, b);
    lemma_scale_one(length(a, b));
    lemma_plus_one(length(a, b));
}

/// A horizontal edge of scale one that is taken out and put back costs one unit more than it did,
/// unless single precision lands just below that and it costs what it did.
pub proof fn law_restored_horizontal(a: (int, int), b: (int, int))
    requires
        a != b,
        a.1 == b.1,
        length(a, b) < 0x80_0000,
    ensures
        ({
            let w = weight(a, b, Single::unity());
            let back = weight(a, b, recovered(a, b, w));
            back == w || back == w + 1
        }),
{
    lemma_apart(a, b);
    law_horizontal_costs_one_more(a, b);
    lemma_grows(length(a, b));
}

/// No two points of the die are further apart than this.
pub proof fn lemma_length_i32(p: Point, q: Point)
    ensures
        0 <= length(pt(p), pt(q)) < 0x2_0000_0000,
{
    lemma_length_exists(pt(p), pt(q));
    let (x, y, r) = (p.0 - q.0, p.1 - q.1, length(pt(p), pt(q)));
    assert(x * x <= 0x1_0000_0000_0000_0000 && y * y <= 0x1_0000_0000_0000_0000)
        by (nonlinear_arith)
        requires
            -0x1_0000_0000 <= x <= 0x1_0000_0000,
            -0x1_0000_0000 <= y <= 0x1_0000_0000,
    ;
    assert(r < 0x2_0000_0000) by (nonlinear_arith)
        requires
            r * r <= 0x2_0000_0000_0000_0000,
            r >= 0,
    ;
}

/// Distinct points are at least one unit apart.
proof fn lemma_apart(a: (int, int), b: (int, int))
    requires
        a != b,
    ensures
        length(a, b) >= 1,
{
    lemma_length_exists(a, b);
    let (x, y, r) = (a.0 - b.0, a.1 - b.1, length(a, b));
    assert(r >= 1) by (nonlinear_arith)
        requires
            x != 0 || y != 0,
            r >= 0,
            x * x + y * y < (r + 1) * (r + 1),
    ;
}

} // verus!
