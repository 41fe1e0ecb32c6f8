//! From a routed path to pieces of wire.

use crate::geom::{fits_i32, half, halve, max, min, pt, rt, widen, wpt, Point, Rect, WidePoint};
use crate::rdl::obstacle::ring_of;
use vstd::prelude::*;

verus! {

/// A wire piece: a rectangle for a straight run, or a slanted centre line with a width.
#[derive(Debug, Clone, Copy, PartialEq, Eq)]
pub enum Wire {
    Straight(Rect),
    Diagonal(Point, Point, i32),
}

/// A run: where it starts and where it ends.
pub type Run = ((int, int), (int, int));

/// The way from `s` to `t`: along x, along y, rising or falling.
pub open spec fn heading(s: (int, int), t: (int, int)) -> u8 {
    if s.1 == t.1 {
        0
    } else if s.0 == t.0 {
        1
    } else if (s.0 < t.0) == (s.1 < t.1) {
        2
    } else {
        3
    }
}

/// `a`, moved by `ext` away from `from`.
pub open spec fn beyond(from: int, a: int, ext: int) -> int {
    if from < a {
        a + ext
    } else {
        a - ext
    }
}

/// `a`, moved by `ext` away from `to`.
pub open spec fn back_from(a: int, to: int, ext: int) -> int {
    if a < to {
        a - ext
    } else {
        a + ext
    }
}

/// A path as runs: points going the same way become one run, and at a right angle the run that
/// arrives ends `ext` past the corner and the one that leaves starts `ext` before it.
pub open spec fn runs_of(route: Seq<(int, int)>, ext: int) -> Seq<Run>
    decreases route.len(),
{
    if route.len() < 2 {
        Seq::empty()
    } else if route.len() == 2 {
        seq![(route[0], route[1])]
    } else {
        let n = route.len() as int;
        let sofar = runs_of(route.drop_last(), ext);
        let (s, t) = (route[n - 2], route[n - 1]);
        let (was, now) = (heading(route[n - 3], s), heading(s, t));
        let last = sofar.len() - 1;
        let a = sofar[last].0;
        if was == now {
            sofar.update(last, (a, t))
        } else if was == 0 && now == 1 {
            sofar.update(last, (a, (beyond(a.0, s.0, ext), s.1))).push(
                ((s.0, back_from(s.1, t.1, ext)), t),
            )
        } else if was == 1 && now == 0 {
            sofar.update(last, (a, (s.0, beyond(a.1, s.1, ext)))).push(
                ((back_from(s.0, t.0, ext), s.1), t),
            )
        } else {
            sofar.push((s, t))
        }
    }
}

pub open spec fn fits_pair(p: (int, int)) -> bool {
    fits_i32(p.0) && fits_i32(p.1)
}

pub open spec fn runs_fit(runs: Seq<Run>) -> bool {
    forall|i: int| 0 <= i < runs.len() ==> fits_pair((#[trigger] runs[i]).0) && fits_pair(runs[i].1)
}

/// The runs as pairs of whole numbers.
pub open spec fn runs_view(runs: Seq<(Point, Point)>) -> Seq<Run> {
    Seq::new(runs.len(), |i: int| (pt(runs[i].0), pt(runs[i].1)))
}

spec fn wide_runs(runs: Seq<(WidePoint, WidePoint)>) -> Seq<Run> {
    Seq::new(runs.len(), |i: int| (wpt(runs[i].0), wpt(runs[i].1)))
}

/// The runs of a path start where it starts and end where it ends, and there is one for any path
/// of two points or more.
pub proof fn law_runs_ends(route: Seq<(int, int)>, ext: int)
    requires
        route.len() >= 2,
    ensures
        runs_of(route, ext).len() >= 1,
        runs_of(route, ext)[0].0 == route[0],
        runs_of(route, ext).last().1 == route.last(),
    decreases route.len(),
{
    if route.len() > 2 {
        law_runs_ends(route.drop_last(), ext);
    }
}

fn direction(s: Point, t: Point) -> (d: u8)
    ensures
        d == heading(pt(s), pt(t)),
{
    if s.1 == t.1 {
        0
    } else if s.0 == t.0 {
        1
    } else if (s.0 < t.0) == (s.1 < t.1) {
        2
    } else {
        3
    }
}

/// Collapse a grid path into straight runs, mitring the corners.
///
/// Consecutive points going the same way become one run. At a right-angle turn both runs are
/// extended by half the wire width: without it the two rectangles meet corner to corner and leave a
/// notch of bare substrate on the inside of every bend.
pub fn simplify(route: &[Point], width: i32) -> (runs: Vec<(Point, Point)>)
    requires
        runs_fit(runs_of(ring_of(route@), half(width as int))),
    ensures
        runs_view(runs@) == runs_of(ring_of(route@), half(width as int)),
{
    if route.len() < 2 {
        let none: Vec<(Point, Point)> = Vec::new();
        assert(runs_view(none@) =~= runs_of(ring_of(route@), half(width as int)));
        return none;
    }
    let ext: i64 = halve(width as i64);
    let ghost all = ring_of(route@);
    let mut wide: Vec<(WidePoint, WidePoint)> = Vec::new();
    wide.push((widen(route[0]), widen(route[1])));
    proof {
        assert(all.take(2).len() == 2);
        assert(wide_runs(wide@) =~= runs_of(all.take(2), ext as int));
    }
    let mut k: usize = 2;
    while k < route.len()
        invariant
            2 <= k <= route.len(),
            all == ring_of(route@),
            ext == half(width as int),
            wide.len() >= 1,
            wide_runs(wide@) == runs_of(all.take(k as int), ext as int),
        decreases route.len() - k,
    {
        let ghost part = all.take(k as int);
        assert(all.take(k + 1).drop_last() =~= part);
        let (r, s, t) = (route[k - 2], route[k - 1], route[k]);
        assert(all[k - 2] == pt(r) && all[k - 1] == pt(s) && all[k as int] == pt(t));
        let (was, now) = (direction(r, s), direction(s, t));
        let last: usize = wide.len() - 1;
        let ghost before = wide_runs(wide@);
        let a = wide[last].0;
        assert(before[last as int].0 == wpt(a));
        let (ws, wt) = (widen(s), widen(t));
        if was == now {
            wide.set(last, (a, wt));
        } else if was == 0 && now == 1 {
            let x: i64 = if a.0 < ws.0 { ws.0 + ext } else { ws.0 - ext };
            let y: i64 = if ws.1 < wt.1 { ws.1 - ext } else { ws.1 + ext };
            wide.set(last, (a, (x, ws.1)));
            wide.push(((ws.0, y), wt));
        } else if was == 1 && now == 0 {
            let y: i64 = if a.1 < ws.1 { ws.1 + ext } else { ws.1 - ext };
            let x: i64 = if ws.0 < wt.0 { ws.0 - ext } else { ws.0 + ext };
            wide.set(last, (a, (ws.0, y)));
            wide.push(((x, ws.1), wt));
        } else {
            wide.push((ws, wt));
        }
        assert(wide_runs(wide@) =~= runs_of(all.take(k + 1), ext as int));
        k += 1;
    }
    assert(all.take(all.len() as int) =~= all);
    let mut runs: Vec<(Point, Point)> = Vec::new();
    let mut i: usize = 0;
    while i < wide.len()
        invariant
            i <= wide.len(),
            runs.len() == i,
            runs_fit(wide_runs(wide@)),
            forall|k: int|
                0 <= k < i ==> pt((#[trigger] runs@[k]).0) == wpt(wide@[k].0) && pt(runs@[k].1)
                    == wpt(wide@[k].1),
        decreases wide.len() - i,
    {
        let (p, q) = wide[i];
        assert(wide_runs(wide@)[i as int] == (wpt(p), wpt(q)));
        runs.push(((p.0 as i32, p.1 as i32), (q.0 as i32, q.1 as i32)));
        i += 1;
    }
    assert(runs_view(runs@) =~= wide_runs(wide@));
    runs
}

/// A straight run's rectangle: the segment, widened sideways only.
pub open spec fn run_box(run: Run, h: int) -> (int, int, int, int) {
    let (s, t) = run;
    if s.0 == t.0 {
        (s.0 - h, min(s.1, t.1), s.0 + h, max(s.1, t.1))
    } else {
        (min(s.0, t.0), s.1 - h, max(s.0, t.0), s.1 + h)
    }
}

pub open spec fn fits_box(r: (int, int, int, int)) -> bool {
    fits_i32(r.0) && fits_i32(r.1) && fits_i32(r.2) && fits_i32(r.3)
}

/// A straight run's rectangle: the segment, widened sideways only.
pub fn run_rect(s: Point, t: Point, width: i32) -> (r: Rect)
    requires
        fits_box(run_box((pt(s), pt(t)), half(width as int))),
    ensures
        rt(r) == run_box((pt(s), pt(t)), half(width as int)),
{
    let h: i64 = halve(width as i64);
    if s.0 == t.0 {
        (
            (s.0 as i64 - h) as i32,
            if s.1 < t.1 { s.1 } else { t.1 },
            (s.0 as i64 + h) as i32,
            if s.1 > t.1 { s.1 } else { t.1 },
        )
    } else {
        (
            if s.0 < t.0 { s.0 } else { t.0 },
            (s.1 as i64 - h) as i32,
            if s.0 > t.0 { s.0 } else { t.0 },
            (s.1 as i64 + h) as i32,
        )
    }
}

/// How far a rectangle reaches across the way a run goes.
pub open spec fn across(r: (int, int, int, int), horizontal: bool) -> int {
    if horizontal {
        r.3 - r.1
    } else {
        r.2 - r.0
    }
}

/// The smallest rectangle around two.
pub open spec fn merged(a: (int, int, int, int), b: (int, int, int, int)) -> (int, int, int, int) {
    (min(a.0, b.0), min(a.1, b.1), max(a.2, b.2), max(a.3, b.3))
}

/// A run that reaches into the pad it serves, where it is wider across than the pad.
pub open spec fn ended(
    run: (int, int, int, int),
    horizontal: bool,
    target: (int, int, int, int),
) -> (int, int, int, int) {
    if across(run, horizontal) <= across(target, horizontal) {
        run
    } else {
        merged(run, target)
    }
}

/// Make the first and last run reach right into the pad it serves.
///
/// Only when the run is wider across than the target it lands on: a run no wider than the pad is
/// already covered by it, and merging then would stretch the wire to the pad's far edge for no
/// reason.
pub fn correct_end(run: Rect, horizontal: bool, target: Rect) -> (r: Rect)
    ensures
        rt(r) == ended(rt(run), horizontal, rt(target)),
{
    let (a, b): (i64, i64) = if horizontal {
        (run.3 as i64 - run.1 as i64, target.3 as i64 - target.1 as i64)
    } else {
        (run.2 as i64 - run.0 as i64, target.2 as i64 - target.0 as i64)
    };
    if a <= b {
        return run;
    }
    (
        if run.0 < target.0 { run.0 } else { target.0 },
        if run.1 < target.1 { run.1 } else { target.1 },
        if run.2 > target.2 { run.2 } else { target.2 },
        if run.3 > target.3 { run.3 } else { target.3 },
    )
}

pub open spec fn slanted(run: Run) -> bool {
    run.0.0 != run.1.0 && run.0.1 != run.1.1
}

/// The rectangle of the straight run `i`: the first reaches into the source, and the last into the
/// target. A lone run is both.
pub open spec fn piece_box(
    runs: Seq<Run>,
    i: int,
    h: int,
    source: Rect,
    target: Rect,
) -> (int, int, int, int) {
    let horizontal = runs[i].0.1 == runs[i].1.1;
    let r = run_box(runs[i], h);
    let begun = if i == 0 {
        ended(r, horizontal, rt(source))
    } else {
        r
    };
    if i == runs.len() - 1 {
        ended(begun, horizontal, rt(target))
    } else {
        begun
    }
}

/// The wire piece of the run `i`.
pub open spec fn is_piece(
    w: Wire,
    runs: Seq<Run>,
    i: int,
    width: i32,
    source: Rect,
    target: Rect,
) -> bool {
    match w {
        Wire::Diagonal(s, t, across) => slanted(runs[i]) && pt(s) == runs[i].0 && pt(t)
            == runs[i].1 && across == width,
        Wire::Straight(r) => !slanted(runs[i]) && rt(r) == piece_box(
            runs,
            i,
            half(width as int),
            source,
            target,
        ),
    }
}

/// The wire pieces for one routed path: the first and the last run each reach into the pad they serve.
pub fn wires(route: &[Point], width: i32, source: Rect, target: Rect) -> (out: Vec<Wire>)
    requires
        runs_fit(runs_of(ring_of(route@), half(width as int))),
        forall|i: int| #![trigger runs_of(ring_of(route@), half(width as int))[i]]
            0 <= i < runs_of(ring_of(route@), half(width as int)).len() && !slanted(
                runs_of(ring_of(route@), half(width as int))[i],
            ) ==> fits_box(
                run_box(runs_of(ring_of(route@), half(width as int))[i], half(width as int)),
            ),
    ensures
        out.len() == runs_of(ring_of(route@), half(width as int)).len(),
        forall|i: int|
            0 <= i < out.len() ==> is_piece(
                #[trigger] out@[i],
                runs_of(ring_of(route@), half(width as int)),
                i,
                width,
                source,
                target,
            ),
{
    let runs = simplify(route, width);
    let ghost all = runs_of(ring_of(route@), half(width as int));
    let mut out: Vec<Wire> = Vec::new();
    let mut i: usize = 0;
    while i < runs.len()
        invariant
            i <= runs.len(),
            out.len() == i,
            runs_view(runs@) == all,
            forall|i: int|
                0 <= i < all.len() && !slanted(#[trigger] all[i]) ==> fits_box(
                    run_box(all[i], half(width as int)),
                ),
            forall|k: int|
                0 <= k < i ==> is_piece(#[trigger] out@[k], all, k, width, source, target),
        decreases runs.len() - i,
    {
        let (s, t) = runs[i];
        assert(all[i as int] == (pt(s), pt(t)));
        if s.0 != t.0 && s.1 != t.1 {
            out.push(Wire::Diagonal(s, t, width));
        } else {
            let mut r = run_rect(s, t, width);
            let horizontal = s.1 == t.1;
            if i == 0 {
                r = correct_end(r, horizontal, source);
            }
            if i == runs.len() - 1 {
                r = correct_end(r, horizontal, target);
            }
            out.push(Wire::Straight(r));
        }
        i += 1;
    }
    out
}

/// A point lies in the rectangle of a straight run exactly where, along the run, it lies between the
/// ends, and across it no further than the half width from the line.
pub proof fn law_run_box(run: Run, h: int, x: int, y: int)
    requires
        h >= 0,
        run.0.0 == run.1.0 || run.0.1 == run.1.1,
        run.0 != run.1,
    ensures
        ({
            let (s, t) = run;
            let b = run_box(run, h);
            b.0 <= x <= b.2 && b.1 <= y <= b.3 <==> if s.0 == t.0 {
                -h <= x - s.0 <= h && (s.1 <= y <= t.1 || t.1 <= y <= s.1)
            } else {
                -h <= y - s.1 <= h && (s.0 <= x <= t.0 || t.0 <= x <= s.0)
            }
        }),
{
}

/// A run that is no wider across than the pad stays as it is. A wider one reaches over all of the pad,
/// and what holds both holds it.
pub proof fn law_corrected_end(
    run: (int, int, int, int),
    horizontal: bool,
    target: (int, int, int, int),
    hull: (int, int, int, int),
)
    ensures
        ({
            let e = ended(run, horizontal, target);
            let wider = if horizontal {
                run.3 - run.1 > target.3 - target.1
            } else {
                run.2 - run.0 > target.2 - target.0
            };
            &&& !wider ==> e == run
            &&& wider ==> (hull.0 <= e.0 && hull.1 <= e.1 && e.2 <= hull.2 && e.3 <= hull.3 <==> hull.0
                <= run.0 && hull.0 <= target.0 && hull.1 <= run.1 && hull.1 <= target.1 && run.2
                <= hull.2 && target.2 <= hull.2 && run.3 <= hull.3 && target.3 <= hull.3)
        }),
{
}

/// Each run makes one piece: a slanted one the run itself, at the full width; any other a rectangle.
pub proof fn law_each_run_one_piece(
    w: Wire,
    runs: Seq<Run>,
    i: int,
    width: i32,
    source: Rect,
    target: Rect,
)
    requires
        is_piece(w, runs, i, width, source, target),
    ensures
        ({
            let (s, t) = runs[i];
            &&& s.0 != t.0 && s.1 != t.1 ==> (w matches Wire::Diagonal(p, q, across) && p.0 == s.0
                && p.1 == s.1 && q.0 == t.0 && q.1 == t.1 && across == width)
            &&& s.0 == t.0 || s.1 == t.1 ==> w is Straight
        }),
{
}

} // verus!
