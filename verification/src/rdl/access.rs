//! Where a terminal meets the grid, and grafting it on.

use crate::geom::{around, copy_points, half, halve, pt, same_point, segments_meet, Point, Rect};
use crate::rdl::grid::Grid;
use crate::rdl::obstacle::{any_met, blocked, segments_intersect, Obstacle};
use vstd::prelude::*;

verus! {

/// Somewhere the router may start or finish: a pin shape it has to touch.
#[derive(Debug, PartialEq, Eq)]
pub struct Target {
    pub terminal: String,
    pub centre: Point,
    pub shape: Rect,
    /// Grid points from which this target can be reached, filled in by [`access_points`].
    pub access: Vec<Point>,
    /// The layer this target's pin metal is on, which is not always the routing layer: with a via
    /// at this end, pin geometry on the via's other layer is accepted and the via's enclosure is
    /// the target.
    pub layer: String,
}

impl Clone for Target {
    fn clone(&self) -> (copy: Target)
        ensures
            copy.terminal == self.terminal,
            copy.centre == self.centre,
            copy.shape == self.shape,
            copy.access@ == self.access@,
            copy.layer == self.layer,
    {
        Target {
            terminal: self.terminal.clone(),
            centre: self.centre,
            shape: self.shape,
            access: copy_points(&self.access),
            layer: self.layer.clone(),
        }
    }
}

/// The question about a coordinate can be asked of any.
pub open spec fn total_on<F: Fn(i32) -> bool>(f: F) -> bool {
    forall|c: i32| #[trigger] f.requires((c,))
}

/// The question's answers are those of a rule.
pub open spec fn follows_on<F: Fn(i32) -> bool>(f: F, rule: spec_fn(i32) -> bool) -> bool {
    forall|c: i32, r: bool| #[trigger] f.ensures((c,), r) ==> r == rule(c)
}

/// The greatest coordinate below `at` that `keep` lets through.
pub open spec fn greatest_below(axis: Seq<i32>, at: int, keep: spec_fn(i32) -> bool) -> Option<i32>
    decreases axis.len(),
{
    if axis.len() == 0 {
        None
    } else {
        let best = greatest_below(axis.drop_last(), at, keep);
        let c = axis.last();
        if c < at && keep(c) && (best matches Some(b) ==> c > b) {
            Some(c)
        } else {
            best
        }
    }
}

/// The least coordinate above `at` that `keep` lets through.
pub open spec fn least_above(axis: Seq<i32>, at: int, keep: spec_fn(i32) -> bool) -> Option<i32>
    decreases axis.len(),
{
    if axis.len() == 0 {
        None
    } else {
        let best = least_above(axis.drop_last(), at, keep);
        let c = axis.last();
        if c > at && keep(c) && (best matches Some(b) ==> c < b) {
            Some(c)
        } else {
            best
        }
    }
}

/// A value, if there is one, as a list.
pub open spec fn listed_value<A>(v: Option<A>) -> Seq<A> {
    match v {
        Some(c) => seq![c],
        None => Seq::empty(),
    }
}

/// Both of them, those there are.
pub open spec fn nearest(axis: Seq<i32>, at: int, keep: spec_fn(i32) -> bool) -> Seq<i32> {
    listed_value(greatest_below(axis, at, keep)) + listed_value(least_above(axis, at, keep))
}

/// What is taken below lies below and is usable, and so above; every other usable coordinate lies
/// beyond them.
pub proof fn law_nearest(axis: Seq<i32>, at: int, keep: spec_fn(i32) -> bool, i: int)
    requires
        0 <= i < axis.len(),
        keep(axis[i]),
    ensures
        axis[i] < at ==> (greatest_below(axis, at, keep) matches Some(c) && axis[i] <= c < at
            && keep(c) && axis.contains(c)),
        axis[i] > at ==> (least_above(axis, at, keep) matches Some(c) && at < c <= axis[i] && keep(
            c,
        ) && axis.contains(c)),
    decreases axis.len(),
{
    let head = axis.drop_last();
    assert(axis[axis.len() - 1] == axis.last());
    lemma_nearest_member(axis, at, keep);
    if i < axis.len() - 1 {
        assert(head[i] == axis[i]);
        law_nearest(head, at, keep, i);
    }
}

/// What is taken is on the axis, usable, and on its side.
pub(crate) proof fn lemma_nearest_member(axis: Seq<i32>, at: int, keep: spec_fn(i32) -> bool)
    ensures
        greatest_below(axis, at, keep) matches Some(c) ==> c < at && keep(c) && axis.contains(c),
        least_above(axis, at, keep) matches Some(c) ==> c > at && keep(c) && axis.contains(c),
    decreases axis.len(),
{
    if axis.len() > 0 {
        let head = axis.drop_last();
        lemma_nearest_member(head, at, keep);
        assert(axis[axis.len() - 1] == axis.last());
        assert forall|c: i32| head.contains(c) implies axis.contains(c) by {
            let k = choose|k: int| 0 <= k < head.len() && head[k] == c;
            assert(axis[k] == c);
        }
    }
}

/// The greatest usable coordinate strictly below `at`, and the least strictly above.
pub fn neighbours_of<F: Fn(i32) -> bool>(axis: &[i32], at: i32, usable: &F) -> (r: (
    Option<i32>,
    Option<i32>,
))
    requires
        total_on(*usable),
    ensures
        forall|rule: spec_fn(i32) -> bool| #[trigger]
            follows_on(*usable, rule) ==> r.0 == greatest_below(axis@, at as int, rule) && r.1
                == least_above(axis@, at as int, rule),
{
    let mut below: Option<i32> = None;
    let mut above: Option<i32> = None;
    let mut i: usize = 0;
    assert(axis@.take(0) =~= Seq::<i32>::empty());
    while i < axis.len()
        invariant
            i <= axis.len(),
            total_on(*usable),
            forall|rule: spec_fn(i32) -> bool| #[trigger]
                follows_on(*usable, rule) ==> below == greatest_below(
                    axis@.take(i as int),
                    at as int,
                    rule,
                ) && above == least_above(axis@.take(i as int), at as int, rule),
        decreases axis.len() - i,
    {
        let c: i32 = axis[i];
        assert(axis@.take(i + 1).drop_last() =~= axis@.take(i as int));
        if c != at && usable(c) {
            if c < at {
                match below {
                    Some(b) if c <= b => {},
                    _ => {
                        below = Some(c);
                    },
                }
            } else {
                match above {
                    Some(b) if c >= b => {},
                    _ => {
                        above = Some(c);
                    },
                }
            }
        }
        i += 1;
    }
    assert(axis@.take(axis@.len() as int) =~= axis@);
    (below, above)
}

/// The greatest usable grid coordinate strictly below `at`, and the least strictly above.
///
/// Only coordinates that are not inside an obstruction take part.
pub fn nearest_tracks<F: Fn(i32) -> bool>(axis: &[i32], at: i32, usable: &F) -> (out: Vec<i32>)
    requires
        total_on(*usable),
    ensures
        forall|rule: spec_fn(i32) -> bool| #[trigger]
            follows_on(*usable, rule) ==> out@ == nearest(axis@, at as int, rule),
        out.len() <= 2,
{
    let (below, above) = neighbours_of(axis, at, usable);
    let mut out: Vec<i32> = Vec::new();
    if let Some(c) = below {
        out.push(c);
    }
    if let Some(c) = above {
        out.push(c);
    }
    assert(out@ =~= listed_value(below) + listed_value(above));
    out
}

/// The obstacle is one of the listed ones.
pub open spec fn listed(o: Obstacle, list: Seq<Obstacle>) -> bool {
    exists|i: int| 0 <= i < list.len() && o.like(#[trigger] list[i])
}

/// The straight run between two points crosses an obstruction that belongs to something else.
pub open spec fn crosses_foreign(
    obstructions: Seq<Obstacle>,
    own: Seq<Obstacle>,
    a: Point,
    b: Point,
) -> bool {
    exists|i: int|
        0 <= i < obstructions.len() && !listed(#[trigger] obstructions[i], own)
            && obstructions[i].met_by(a, b)
}

/// The nearest usable tracks on each side of a target, in each axis.
pub open spec fn candidates(g: Grid, centre: Point, obstructions: Seq<Obstacle>) -> Seq<Point> {
    let xs = nearest(
        g.x@,
        centre.0 as int,
        |x: i32| !any_met(obstructions, (x, centre.1), (x, centre.1)),
    );
    let ys = nearest(
        g.y@,
        centre.1 as int,
        |y: i32| !any_met(obstructions, (centre.0, y), (centre.0, y)),
    );
    Seq::new(xs.len(), |i: int| (xs[i], centre.1)) + Seq::new(ys.len(), |i: int| (centre.0, ys[i]))
}

/// The first point comes before the second: by x, then by y.
pub open spec fn point_before(a: Point, b: Point) -> bool {
    a.0 < b.0 || (a.0 == b.0 && a.1 < b.1)
}

/// The points stand in strictly ascending order.
pub open spec fn ascending(points: Seq<Point>) -> bool {
    forall|i: int, j: int| 0 <= i < j < points.len() ==> point_before(#[trigger] points[i], #[trigger] points[j])
}

fn is_listed(o: &Obstacle, list: &[Obstacle]) -> (yes: bool)
    ensures
        yes == listed(*o, list@),
{
    let mut i: usize = 0;
    while i < list.len()
        invariant
            i <= list.len(),
            forall|k: int| 0 <= k < i ==> !o.like(#[trigger] list@[k]),
        decreases list.len() - i,
    {
        if o.same(&list[i]) {
            return true;
        }
        i += 1;
    }
    false
}

fn meets_foreign(obstructions: &[Obstacle], own: &[Obstacle], a: Point, b: Point) -> (yes: bool)
    ensures
        yes == crosses_foreign(obstructions@, own@, a, b),
{
    let mut i: usize = 0;
    while i < obstructions.len()
        invariant
            i <= obstructions.len(),
            forall|k: int|
                0 <= k < i ==> !(!listed(#[trigger] obstructions@[k], own@)
                    && obstructions@[k].met_by(a, b)),
        decreases obstructions.len() - i,
    {
        if obstructions[i].hits(a, b) && !is_listed(&obstructions[i], own) {
            return true;
        }
        i += 1;
    }
    false
}

/// Put a point in its place among points in ascending order, once.
fn insert_point(out: &mut Vec<Point>, p: Point)
    requires
        ascending(old(out)@),
    ensures
        ascending(final(out)@),
        forall|q: Point| final(out)@.contains(q) <==> old(out)@.contains(q) || q == p,
{
    let mut i: usize = 0;
    while i < out.len() && (out[i].0 < p.0 || (out[i].0 == p.0 && out[i].1 < p.1))
        invariant
            i <= out.len(),
            forall|k: int| 0 <= k < i ==> point_before(#[trigger] out@[k], p),
        decreases out.len() - i,
    {
        i += 1;
    }
    let ghost before = out@;
    if i < out.len() && same_point(out[i], p) {
        assert(before[i as int] == p);
        return;
    }
    out.insert(i, p);
    assert(out@[i as int] == p);
    assert forall|q: Point| out@.contains(q) <==> before.contains(q) || q == p by {
        if before.contains(q) {
            let k = choose|k: int| 0 <= k < before.len() && before[k] == q;
            if k < i {
                assert(out@[k] == q);
            } else {
                assert(out@[k + 1] == q);
            }
        }
        if out@.contains(q) && q != p {
            let k = choose|k: int| 0 <= k < out@.len() && out@[k] == q;
            if k < i {
                assert(before[k] == q);
            } else {
                assert(before[k - 1] == q);
            }
        }
    }
    assert forall|a: int, b: int| 0 <= a < b < out@.len() implies point_before(
        #[trigger] out@[a],
        #[trigger] out@[b],
    ) by {
        if i < before.len() {
            assert(point_before(p, before[i as int]));
        }
        if a < i && b > i {
            assert(point_before(before[a], before[b - 1]));
        } else if a > i {
            assert(point_before(before[a - 1], before[b - 1]));
        } else if b < i {
            assert(point_before(before[a], before[b]));
        } else if a == i && b - 1 > i {
            assert(point_before(before[i as int], before[b - 1]));
        }
    }
}

/// The grid points a target can be entered from.
///
/// Four candidates at most: the nearest usable track on each side, in each axis. A candidate track
/// is rejected if it lies inside any obstruction, the terminal's own metal included: every grid
/// edge inside a pad has been filtered away, so a point there is a dead end. A candidate is then
/// dropped when the straight run from the target's centre to it would cross an obstruction that
/// belongs to something else; an obstruction belonging to this terminal does not count there,
/// because the target sits inside its own pin metal and every access line starts inside it.
pub fn access_points(
    g: &Grid,
    target: &Target,
    obstructions: &[Obstacle],
    own: &[Obstacle],
) -> (out: Vec<Point>)
    ensures
        ascending(out@),
        forall|p: Point| #[trigger]
            out@.contains(p) <==> candidates(*g, target.centre, obstructions@).contains(p)
                && !crosses_foreign(obstructions@, own@, target.centre, p),
{
    let c = target.centre;
    let open_x = |x: i32| -> (r: bool)
        ensures
            r == !any_met(obstructions@, (x, c.1), (x, c.1)),
        { !blocked((x, c.1), (x, c.1), obstructions) };
    let open_y = |y: i32| -> (r: bool)
        ensures
            r == !any_met(obstructions@, (c.0, y), (c.0, y)),
        { !blocked((c.0, y), (c.0, y), obstructions) };
    let xs = nearest_tracks(&g.x, c.0, &open_x);
    let ys = nearest_tracks(&g.y, c.1, &open_y);
    let ghost all = candidates(*g, c, obstructions@);
    proof {
        let rule_x = |x: i32| !any_met(obstructions@, (x, c.1), (x, c.1));
        let rule_y = |y: i32| !any_met(obstructions@, (c.0, y), (c.0, y));
        assert(follows_on(open_x, rule_x));
        assert(follows_on(open_y, rule_y));
    }
    let mut out: Vec<Point> = Vec::new();
    let mut i: usize = 0;
    while i < xs.len() + ys.len()
        invariant
            i <= xs.len() + ys.len(),
            c == target.centre,
            xs.len() <= 2,
            ys.len() <= 2,
            all == Seq::new(xs@.len(), |i: int| (xs@[i], c.1)) + Seq::new(
                ys@.len(),
                |i: int| (c.0, ys@[i]),
            ),
            ascending(out@),
            forall|p: Point| #[trigger]
                out@.contains(p) <==> all.take(i as int).contains(p) && !crosses_foreign(
                    obstructions@,
                    own@,
                    c,
                    p,
                ),
        decreases xs.len() + ys.len() - i,
    {
        let p: Point = if i < xs.len() { (xs[i], c.1) } else { (c.0, ys[i - xs.len()]) };
        assert(all[i as int] == p);
        assert(all.take(i + 1) =~= all.take(i as int).push(p));
        let ghost before = out@;
        if !meets_foreign(obstructions, own, c, p) {
            insert_point(&mut out, p);
        }
        assert forall|q: Point| #[trigger] out@.contains(q) <==> all.take(i + 1).contains(q)
            && !crosses_foreign(obstructions@, own@, c, q) by {
            crate::lists::lemma_push_contains(all.take(i as int), p, q);
            assert(before.contains(q) <==> all.take(i as int).contains(q) && !crosses_foreign(
                obstructions@,
                own@,
                c,
                q,
            ));
        }
        i += 1;
    }
    assert(all.take(all.len() as int) =~= all);
    out
}

/// The edge is slanted and the line from `a` to `b` meets it.
pub open spec fn bars(a: Point, b: Point, poly: Seq<Point>, i: int) -> bool {
    &&& poly[i].0 != poly[i + 1].0 && poly[i].1 != poly[i + 1].1
    &&& segments_meet(pt(a), pt(b), pt(poly[i]), pt(poly[i + 1]))
}

/// The line from `a` to `b` meets a slanted edge of one of the polygons.
pub open spec fn crosses_slanted(a: Point, b: Point, polygons: Seq<Vec<Point>>) -> bool {
    exists|k: int, i: int|
        0 <= k < polygons.len() && 0 <= i < polygons[k]@.len() - 1 && #[trigger] bars(
            a,
            b,
            polygons[k]@,
            i,
        )
}

fn meets_slanted(a: Point, b: Point, polygons: &[Vec<Point>]) -> (yes: bool)
    ensures
        yes == crosses_slanted(a, b, polygons@),
{
    let mut k: usize = 0;
    while k < polygons.len()
        invariant
            k <= polygons.len(),
            forall|m: int, i: int|
                0 <= m < k && 0 <= i < polygons@[m]@.len() - 1 ==> !#[trigger] bars(
                    a,
                    b,
                    polygons@[m]@,
                    i,
                ),
        decreases polygons.len() - k,
    {
        let poly = &polygons[k];
        let mut i: usize = 1;
        while i < poly.len()
            invariant
                k < polygons.len(),
                poly@ == polygons@[k as int]@,
                1 <= i,
                forall|j: int| 0 <= j < i - 1 && j < poly@.len() - 1 ==> !#[trigger] bars(a, b, poly@, j),
            decreases poly.len() - i,
        {
            let (p, q) = (poly[i - 1], poly[i]);
            if p.0 != q.0 && p.1 != q.1 && segments_intersect(a, b, p, q) {
                assert(bars(a, b, polygons@[k as int]@, i - 1));
                return true;
            }
            i += 1;
        }
        k += 1;
    }
    false
}

/// An access line that crosses one of the terminal's own slanted pin edges is dropped.
///
/// Every candidate whose line from the target's centre crosses a slanted edge goes; an
/// axis-aligned pin edge is no barrier.
pub fn snaps_clear_of_diagonal_pin_edges(
    centre: Point,
    snaps: &[Point],
    polygons: &[Vec<Point>],
) -> (out: Vec<Point>)
    ensures
        out@ == snaps@.filter(|p: Point| !crosses_slanted(centre, p, polygons@)),
{
    let ghost keep = |p: Point| !crosses_slanted(centre, p, polygons@);
    let mut out: Vec<Point> = Vec::new();
    let mut i: usize = 0;
    while i < snaps.len()
        invariant
            i <= snaps.len(),
            keep == (|p: Point| !crosses_slanted(centre, p, polygons@)),
            out@ == snaps@.take(i as int).filter(keep),
        decreases snaps.len() - i,
    {
        let p = snaps[i];
        proof {
            crate::lists::lemma_filter_step(snaps@, i as int, keep);
        }
        if !meets_slanted(centre, p, polygons) {
            out.push(p);
        }
        i += 1;
    }
    assert(snaps@.take(snaps@.len() as int) =~= snaps@);
    out
}

/// The boxes of half-side `reach` around the two points touch or overlap.
pub open spec fn close(p: (int, int), q: (int, int), reach: int) -> bool {
    let (a, b) = (around(p, reach), around(q, reach));
    a.0 <= b.2 && b.0 <= a.2 && a.1 <= b.3 && b.1 <= a.3
}

/// The box around `p` reaches a box of the same size around a point of one of the routes.
pub open spec fn crowded(p: Point, committed: Seq<Seq<Point>>, reach: int) -> bool {
    exists|k: int, i: int|
        0 <= k < committed.len() && 0 <= i < committed[k].len() && close(
            pt(p),
            pt(#[trigger] committed[k][i]),
            reach,
        )
}

/// The routes' points.
pub open spec fn tracks_of(committed: Seq<&[Point]>) -> Seq<Seq<Point>> {
    Seq::new(committed.len(), |k: int| committed[k]@)
}

/// Is this access point too close to a route already committed?
///
/// Compares the box of `(width + spacing) / 2` around the point against the same-sized box around
/// every point of every committed route. Access points are filtered again before each attempt: a
/// terminal's approaches are progressively closed off as wires are laid near it.
pub fn access_blocked(point: Point, committed: &[&[Point]], width: i32, spacing: i32) -> (b: bool)
    ensures
        b == crowded(point, tracks_of(committed@), half(width + spacing)),
{
    let e: i64 = halve(width as i64 + spacing as i64);
    let ghost all = tracks_of(committed@);
    let mut k: usize = 0;
    while k < committed.len()
        invariant
            k <= committed.len(),
            e == half(width + spacing),
            all == tracks_of(committed@),
            forall|m: int, i: int|
                0 <= m < k && 0 <= i < all[m].len() ==> !close(
                    pt(point),
                    pt(#[trigger] all[m][i]),
                    e as int,
                ),
        decreases committed.len() - k,
    {
        let route = committed[k];
        let mut i: usize = 0;
        while i < route.len()
            invariant
                k < committed.len(),
                all == tracks_of(committed@),
                route@ == all[k as int],
                i <= route.len(),
                e == half(width + spacing),
                forall|j: int|
                    0 <= j < i ==> !close(pt(point), pt(#[trigger] all[k as int][j]), e as int),
            decreases route.len() - i,
        {
            let q = route[i];
            let dx: i64 = point.0 as i64 - q.0 as i64;
            let dy: i64 = point.1 as i64 - q.1 as i64;
            if dx <= 2 * e && -dx <= 2 * e && dy <= 2 * e && -dy <= 2 * e {
                assert(close(pt(point), pt(all[k as int][i as int]), e as int));
                return true;
            }
            assert(all[k as int][i as int] == q);
            i += 1;
        }
        k += 1;
    }
    false
}

/// The coordinate is on the axis and free, and none that is lies between it and `at`.
pub open spec fn next_to(axis: Seq<i32>, at: int, keep: spec_fn(i32) -> bool, c: i32) -> bool {
    &&& axis.contains(c) && keep(c) && c != at
    &&& forall|d: i32| #[trigger]
        axis.contains(d) && keep(d) ==> !(at < d < c) && !(c < d < at)
}

proof fn lemma_next_to(axis: Seq<i32>, at: int, keep: spec_fn(i32) -> bool, c: i32)
    ensures
        nearest(axis, at, keep).contains(c) <==> next_to(axis, at, keep, c),
{
    let all = nearest(axis, at, keep);
    let (below, above) = (greatest_below(axis, at, keep), least_above(axis, at, keep));
    lemma_nearest_member(axis, at, keep);
    assert(all.contains(c) <==> below == Some(c) || above == Some(c)) by {
        if let Some(x) = below {
            assert(all[0] == x);
        }
        if let Some(x) = above {
            assert(all[all.len() - 1] == x);
        }
        if all.contains(c) {
            let k = choose|k: int| 0 <= k < all.len() && all[k] == c;
            if k < listed_value(below).len() {
                assert(listed_value(below)[k] == c);
            } else {
                assert(listed_value(above)[k - listed_value(below).len()] == c);
            }
        }
    }
    if all.contains(c) {
        assert forall|d: i32| #[trigger] axis.contains(d) && keep(d) implies !(at < d < c) && !(c
            < d < at) by {
            let i = choose|i: int| 0 <= i < axis.len() && axis[i] == d;
            law_nearest(axis, at, keep, i);
        }
    }
    if next_to(axis, at, keep, c) {
        let i = choose|i: int| 0 <= i < axis.len() && axis[i] == c;
        law_nearest(axis, at, keep, i);
    }
}

/// Where a target may be entered from: straight along its row or its column, at a grid coordinate clear of
/// every obstruction, with no other such coordinate on the way.
pub proof fn law_entered_from_the_nearest_tracks(
    g: Grid,
    centre: Point,
    obstructions: Seq<Obstacle>,
    p: Point,
)
    ensures
        candidates(g, centre, obstructions).contains(p) <==> {
            ||| p.1 == centre.1 && next_to(
                g.x@,
                centre.0 as int,
                |x: i32| !any_met(obstructions, (x, centre.1), (x, centre.1)),
                p.0,
            )
            ||| p.0 == centre.0 && next_to(
                g.y@,
                centre.1 as int,
                |y: i32| !any_met(obstructions, (centre.0, y), (centre.0, y)),
                p.1,
            )
        },
{
    let free_x = |x: i32| !any_met(obstructions, (x, centre.1), (x, centre.1));
    let free_y = |y: i32| !any_met(obstructions, (centre.0, y), (centre.0, y));
    let xs = nearest(g.x@, centre.0 as int, free_x);
    let ys = nearest(g.y@, centre.1 as int, free_y);
    lemma_next_to(g.x@, centre.0 as int, free_x, p.0);
    lemma_next_to(g.y@, centre.1 as int, free_y, p.1);
    let all = candidates(g, centre, obstructions);
    if all.contains(p) {
        let k = choose|k: int| 0 <= k < all.len() && all[k] == p;
        if k < xs.len() {
            assert(xs[k] == p.0);
        } else {
            assert(ys[k - xs.len()] == p.1);
        }
    }
    if p.1 == centre.1 && xs.contains(p.0) {
        let k = choose|k: int| 0 <= k < xs.len() && xs[k] == p.0;
        assert(all[k] == p);
    }
    if p.0 == centre.0 && ys.contains(p.1) {
        let k = choose|k: int| 0 <= k < ys.len() && ys[k] == p.1;
        assert(all[xs.len() + k] == p);
    }
}

/// A point is crowded exactly where some point of a laid route is no farther from it than twice the reach,
/// along each axis.
pub proof fn law_crowded_is_close(p: Point, committed: Seq<Seq<Point>>, reach: int)
    ensures
        crowded(p, committed, reach) <==> exists|k: int, i: int|
            0 <= k < committed.len() && 0 <= i < committed[k].len() && -2 * reach <= p.0 - (
            #[trigger] committed[k][i]).0 <= 2 * reach && -2 * reach <= p.1 - committed[k][i].1 <= 2
                * reach,
{
}

/// A slanted edge of one of the polygons has a point in common with the line from `a` to `b`.
pub open spec fn slant_met(a: Point, b: Point, polygons: Seq<Vec<Point>>, k: int, i: int) -> bool {
    &&& 0 <= k < polygons.len() && 0 <= i < polygons[k]@.len() - 1
    &&& polygons[k]@[i].0 != polygons[k]@[i + 1].0 && polygons[k]@[i].1 != polygons[k]@[i + 1].1
    &&& exists|m: int, j: int, n: int| #[trigger]
        crate::rdl::touch::shares(
            pt(a),
            pt(b),
            pt(polygons[k]@[i]),
            pt(polygons[k]@[i + 1]),
            m,
            j,
            n,
        )
}

/// An access line is barred by the pin's slanted edges alone, and by each that it touches.
pub proof fn law_barred_by_slanted_edges(a: Point, b: Point, polygons: Seq<Vec<Point>>)
    ensures
        crosses_slanted(a, b, polygons) <==> exists|k: int, i: int| #[trigger]
            slant_met(a, b, polygons, k, i),
{
    if crosses_slanted(a, b, polygons) {
        let (k, i) = choose|k: int, i: int|
            0 <= k < polygons.len() && 0 <= i < polygons[k]@.len() - 1 && #[trigger] bars(
                a,
                b,
                polygons[k]@,
                i,
            );
        crate::rdl::touch::law_touch_is_shared_point(
            pt(a),
            pt(b),
            pt(polygons[k]@[i]),
            pt(polygons[k]@[i + 1]),
        );
        assert(slant_met(a, b, polygons, k, i));
    }
    if exists|k: int, i: int| #[trigger] slant_met(a, b, polygons, k, i) {
        let (k, i) = choose|k: int, i: int| #[trigger] slant_met(a, b, polygons, k, i);
        crate::rdl::touch::law_touch_is_shared_point(
            pt(a),
            pt(b),
            pt(polygons[k]@[i]),
            pt(polygons[k]@[i + 1]),
        );
        assert(bars(a, b, polygons[k]@, i));
    }
}

/// The way in is barred by what is not the terminal's own: where it owns nothing, by anything that is met;
/// where it owns all of it, by nothing; and what it does not own bars it, whatever else it owns.
pub proof fn law_own_metal_bars_nothing(
    obstructions: Seq<Obstacle>,
    own: Seq<Obstacle>,
    a: Point,
    b: Point,
    i: int,
)
    requires
        0 <= i < obstructions.len(),
    ensures
        own.len() == 0 ==> crosses_foreign(obstructions, own, a, b) == any_met(obstructions, a, b),
        own == obstructions ==> !crosses_foreign(obstructions, own, a, b),
        obstructions[i].met_by(a, b) && (forall|k: int|
            0 <= k < own.len() ==> !obstructions[i].like(#[trigger] own[k])) ==> crosses_foreign(
            obstructions,
            own,
            a,
            b,
        ),
{
    if own == obstructions {
        assert forall|k: int| 0 <= k < obstructions.len() implies listed(
            #[trigger] obstructions[k],
            own,
        ) by {
            assert(obstructions[k].like(own[k]));
        }
    }
    if own.len() == 0 {
        assert forall|k: int| 0 <= k < obstructions.len() implies !listed(
            #[trigger] obstructions[k],
            own,
        ) by {}
    }
}

/// Of two points in ascending order the first has the lesser x, or the same and the lesser y.
pub proof fn law_ascending(points: Seq<Point>, i: int, j: int)
    requires
        ascending(points),
        0 <= i < j < points.len(),
    ensures
        points[i].0 <= points[j].0,
        points[i].0 == points[j].0 ==> points[i].1 < points[j].1,
{
}

} // verus!
