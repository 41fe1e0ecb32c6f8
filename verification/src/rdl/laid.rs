//! What a laid route keeps others away from.

use crate::geom::{around, meets, pt, Point};
use crate::rdl::commit::{clearance, committed, in_corridor, in_octagon, in_swept, on_route};
use crate::rdl::graft::grafted;
use crate::rdl::graph::{lemma_slot, slot, Record, Web};
use crate::rdl::obstacle::meets_ring;
use crate::rdl::octagon::swept;
use crate::rdl::restore::{
    law_corridor_is_cleared, lemma_committed_sound, lemma_cut_adds_none, lemma_grafted_sound,
    lemma_restored_edges, listed, of_pairs,
};
use crate::rdl::ripup::{comes_near, comes_within};
use crate::rdl::route::RouteView;
use crate::rdl::router::{touched, tracks, with_tracks, Plan};
use crate::rdl::search::found;
use crate::rdl::touch::{law_hits_is_shared_point, reaches};
use vstd::prelude::*;

verus! {

/// The edge between the two points comes near the route, seen from either end.
pub open spec fn grazes(p: Point, q: Point, route: Seq<Point>, d: int) -> bool {
    comes_near(p, q, route, d) || comes_near(q, p, route, d)
}

/// Half a wire, in whole units, the spacing, and one unit more.
pub open spec fn berth(width: int, spacing: int) -> int {
    width / 2 + spacing + 1
}

proof fn lemma_corridor(route: Seq<Point>, d: int, p: Point, q: Point)
    requires
        d >= 0,
    ensures
        in_corridor(route, d, p, q) <==> comes_near(p, q, route, d),
{
    if in_corridor(route, d, p, q) {
        let k = choose|k: int|
            0 <= k < route.len() && meets(pt(p), pt(q), around(pt(#[trigger] route[k]), d));
        let c = route[k];
        law_hits_is_shared_point(pt(p), pt(q), (c.0 - d, c.1 - d, c.0 + d, c.1 + d));
        assert(comes_within(p, q, route[k], d));
    }
    if comes_near(p, q, route, d) {
        let k = choose|k: int| 0 <= k < route.len() && #[trigger] comes_within(p, q, route[k], d);
        let c = route[k];
        law_hits_is_shared_point(pt(p), pt(q), (c.0 - d, c.1 - d, c.0 + d, c.1 + d));
        assert(meets(pt(p), pt(q), around(pt(route[k]), d)));
    }
}

/// An edge from a point of the route comes near the route.
proof fn lemma_starts_near(p: Point, q: Point, route: Seq<Point>, d: int, k: int)
    requires
        d >= 0,
        0 <= k < route.len(),
        route[k] == p,
    ensures
        comes_near(p, q, route, d),
{
    let r = (p.0 - d, p.1 - d, p.0 + d, p.1 + d);
    assert((q.0 - p.0) * 0 == 0 && (q.1 - p.1) * 0 == 0) by (nonlinear_arith);
    assert(reaches(pt(p), pt(q), r, 0, 1));
    assert(comes_within(p, q, route[k], d));
}

/// Committing a route leaves no edge that comes within half a wire, the spacing and a unit of one of its
/// points; and without slanted edges it takes out no other.
pub proof fn law_committed_keeps_clear(
    web: Web,
    route: Seq<Point>,
    width: int,
    spacing: int,
    allow45: bool,
    a: usize,
    b: usize,
)
    requires
        web.wf(),
        web.mutual(),
        web.points.len() <= usize::MAX,
        width >= 0,
        spacing >= 0,
        a < web.points.len(),
        b < web.points.len(),
    ensures
        ({
            let left = committed(web, route, width, spacing, allow45).web.edge(a, b);
            let near = grazes(
                web.points[a as int],
                web.points[b as int],
                route,
                berth(width, spacing),
            );
            &&& left ==> web.edge(a, b) && !near
            &&& !allow45 ==> (left <==> web.edge(a, b) && !near)
        }),
{
    let d = clearance(width, spacing);
    let (p, q) = (web.points[a as int], web.points[b as int]);
    assert(d == berth(width, spacing));
    if a <= b {
        law_corridor_is_cleared(web, route, width, spacing, allow45, a, b);
    } else {
        law_corridor_is_cleared(web, route, width, spacing, allow45, b, a);
    }
    lemma_corridor(route, d, p, q);
    lemma_corridor(route, d, q, p);
    if web.edge(a, b) {
        assert(web.edge(b, a));
    }
    if on_route(web.points, route, a) {
        let k = choose|k: int|
            0 <= k < route.len() && slot(web.points, #[trigger] route[k]) == Some(a as int);
        lemma_slot(web.points, route[k]);
        lemma_starts_near(p, q, route, d, k);
    }
    if on_route(web.points, route, b) {
        let k = choose|k: int|
            0 <= k < route.len() && slot(web.points, #[trigger] route[k]) == Some(b as int);
        lemma_slot(web.points, route[k]);
        lemma_starts_near(q, p, route, d, k);
    }
}

/// The edge from `p` to `q` keeps clear of what each slanted segment of the route sweeps, the first
/// segment aside.
pub open spec fn unswept(route: Seq<Point>, d: int, p: Point, q: Point) -> bool {
    forall|i: int|
        1 <= i < route.len() - 1 && (#[trigger] route[i]).0 != route[i + 1].0 && route[i].1 != route[i
            + 1].1 ==> !meets_ring(pt(p), pt(q), swept(pt(route[i]), pt(route[i + 1]), d))
}

/// With slanted edges, committing a route takes out what comes near its points and what meets the
/// octagon of a slanted segment other than its first, and no more.
pub proof fn law_slanted_segments_sweep(
    web: Web,
    route: Seq<Point>,
    width: int,
    spacing: int,
    a: usize,
    b: usize,
)
    requires
        web.wf(),
        web.mutual(),
        web.points.len() <= usize::MAX,
        width >= 0,
        spacing >= 0,
        a <= b < web.points.len(),
    ensures
        ({
            let d = berth(width, spacing);
            let (p, q) = (web.points[a as int], web.points[b as int]);
            committed(web, route, width, spacing, true).web.edge(a, b) <==> web.edge(a, b) && !grazes(
                p,
                q,
                route,
                d,
            ) && unswept(route, d, p, q)
        }),
{
    let d = berth(width, spacing);
    let (p, q) = (web.points[a as int], web.points[b as int]);
    assert(d == clearance(width, spacing));
    law_committed_keeps_clear(web, route, width, spacing, true, a, b);
    law_committed_keeps_clear(web, route, width, spacing, false, a, b);
    law_corridor_is_cleared(web, route, width, spacing, true, a, b);
    law_corridor_is_cleared(web, route, width, spacing, false, a, b);
    if in_octagon(route, d, p, q) {
        let i = choose|i: int| 2 <= i < route.len() && #[trigger] in_swept(route, d, p, q, i);
        assert(route[i - 1].0 != route[i - 1 + 1].0);
    }
    if !unswept(route, d, p, q) {
        let i = choose|i: int|
            1 <= i < route.len() - 1 && (#[trigger] route[i]).0 != route[i + 1].0 && route[i].1
                != route[i + 1].1 && meets_ring(
                pt(p),
                pt(q),
                swept(pt(route[i]), pt(route[i + 1]), d),
            );
        assert(in_swept(route, d, p, q, i + 1));
    }
}

/// A graph on which routes are laid one after another has no edge near any of them; without slanted edges
/// it has every other that there was.
pub proof fn law_laid_routes_are_kept_clear_of(
    web: Web,
    laid: Seq<Seq<Point>>,
    plan: Plan,
    a: usize,
    b: usize,
)
    requires
        web.wf(),
        web.mutual(),
        web.points.len() <= usize::MAX,
        plan.width >= 0,
        plan.spacing >= 0,
        a < web.points.len(),
        b < web.points.len(),
    ensures
        ({
            let after = with_tracks(web, laid, plan);
            let (p, q) = (web.points[a as int], web.points[b as int]);
            let clear = forall|j: int|
                0 <= j < laid.len() ==> !grazes(
                    p,
                    q,
                    #[trigger] laid[j],
                    berth(plan.width, plan.spacing),
                );
            &&& after.wf() && after.mutual() && after.points == web.points
            &&& after.edge(a, b) ==> web.edge(a, b) && clear
            &&& !plan.allow45 ==> (after.edge(a, b) <==> web.edge(a, b) && clear)
        }),
    decreases laid.len(),
{
    if laid.len() > 0 {
        let head = laid.drop_last();
        law_laid_routes_are_kept_clear_of(web, head, plan, a, b);
        let before = with_tracks(web, head, plan);
        let (w, s) = (plan.width, plan.spacing);
        law_committed_keeps_clear(before, laid.last(), w, s, plan.allow45, a, b);
        lemma_committed_sound(before, laid.last(), w, s, plan.allow45);
        let (p, q) = (web.points[a as int], web.points[b as int]);
        assert(laid[laid.len() - 1] == laid.last());
        assert forall|j: int| 0 <= j < head.len() implies head[j] == #[trigger] laid[j] by {}
        assert forall|j: int| 0 <= j < head.len() implies #[trigger] head[j] == laid[j] by {}
    }
}

/// What undoing a change may leave: the edges there were, and those listed that are not blocked.
proof fn lemma_undone_edges(
    web: Web,
    record: Record,
    blocked: spec_fn(Point, Point) -> bool,
    x: usize,
    y: usize,
)
    requires
        web.wf(),
        web.mutual(),
        record.within(web.points.len() as int),
        of_pairs(record.restore, web.points.len() as int),
        x < web.points.len(),
    ensures
        ({
            let after = web.undone(record, blocked);
            &&& after.wf() && after.mutual() && after.points == web.points
            &&& after.edge(x, y) ==> web.edge(x, y) || listed(
                record.restore,
                web.points,
                blocked,
                x,
                y,
            )
        }),
{
    lemma_cut_adds_none(web, record.cut, x, y);
    lemma_restored_edges(web.cut_all(record.cut), record.restore, blocked);
    let after = web.undone(record, blocked);
    assert(after.edge(x, y) ==> web.cut_all(record.cut).edge(x, y) || listed(
        record.restore,
        web.points,
        blocked,
        x,
        y,
    ));
}

/// No edge that is put back starts or ends on a laid path.
proof fn lemma_not_put_back(
    list: Seq<(usize, usize, crate::single::Single)>,
    points: Seq<Point>,
    laid: Seq<Seq<Point>>,
    blocked: spec_fn(Point, Point) -> bool,
    x: usize,
    y: usize,
    k: int,
)
    requires
        laid.len() > 0,
        0 <= k < laid.last().len(),
        points[x as int] == laid.last()[k],
    ensures
        !listed(
            list,
            points,
            |p: Point, q: Point| blocked(p, q) || touched(laid, p, q),
            x,
            y,
        ),
        !listed(
            list,
            points,
            |p: Point, q: Point| blocked(p, q) || touched(laid, p, q),
            y,
            x,
        ),
{
    let (p, q) = (points[x as int], points[y as int]);
    let c = laid[laid.len() - 1][k];
    assert(c == p);
    assert((q.0 - p.0) * (p.1 - p.1) - (q.1 - p.1) * (p.0 - p.0) == 0) by (nonlinear_arith);
    assert((p.0 - q.0) * (p.1 - q.1) - (p.1 - q.1) * (p.0 - q.0) == 0) by (nonlinear_arith);
    assert(crate::geom::on_segment(pt(laid[laid.len() - 1][k]), pt(p), pt(q)));
    assert(crate::geom::on_segment(pt(laid[laid.len() - 1][k]), pt(q), pt(p)));
    assert(touched(laid, p, q) && touched(laid, q, p));
}

/// The record speaks of edges between two of the first `n` vertices each.
spec fn speaks_of(record: Record, n: int) -> bool {
    record.within(n) && of_pairs(record.restore, n)
}

/// A path committed, and two changes undone where that does not conflict with it: no edge is left at any of
/// its points.
proof fn lemma_alone(
    web: Web,
    far: Record,
    near: Record,
    path: Seq<Point>,
    before: Seq<Seq<Point>>,
    plan: Plan,
    a: usize,
    b: usize,
    k: int,
)
    requires
        web.wf(),
        web.mutual(),
        web.points.len() <= usize::MAX,
        speaks_of(far, web.points.len() as int),
        speaks_of(near, web.points.len() as int),
        plan.width >= 0,
        plan.spacing >= 0,
        0 <= k < path.len(),
        a < web.points.len(),
        b < web.points.len(),
        web.points[a as int] == path[k] || web.points[b as int] == path[k],
    ensures
        ({
            let c = committed(web, path, plan.width, plan.spacing, plan.allow45);
            let laid = before.push(path);
            let conflict = |p: Point, q: Point| (plan.blocked)(p, q) || touched(laid, p, q);
            let after = c.web.undone(far, conflict).undone(near, conflict);
            after.points == web.points && !after.edge(a, b)
        }),
{
    let (w, s) = (plan.width, plan.spacing);
    let c = committed(web, path, w, s, plan.allow45);
    lemma_committed_sound(web, path, w, s, plan.allow45);
    let laid = before.push(path);
    let conflict = |p: Point, q: Point| (plan.blocked)(p, q) || touched(laid, p, q);
    lemma_undone_edges(c.web, far, conflict, a, b);
    let mid = c.web.undone(far, conflict);
    lemma_undone_edges(mid, near, conflict, a, b);
    let points = web.points;
    let (x, y) = if points[a as int] == path[k] {
        (a, b)
    } else {
        (b, a)
    };
    lemma_not_put_back(far.restore, points, laid, plan.blocked, x, y, k);
    lemma_not_put_back(near.restore, points, laid, plan.blocked, x, y, k);
    law_committed_keeps_clear(web, path, w, s, plan.allow45, a, b);
    lemma_starts_near(points[x as int], points[y as int], path, berth(w, s), k);
}

/// Once a connection is made, its path stands alone: the graph has no edge from or to any of its points,
/// even among those that are put back when the two terminals are taken off again.
pub proof fn law_laid_path_stands_alone(
    plan: Plan,
    web: Web,
    routes: Seq<RouteView>,
    s: (Point, Seq<Point>),
    d: (Point, Seq<Point>),
    a: usize,
    b: usize,
    k: int,
)
    requires
        plan.base(web, routes).wf(),
        plan.base(web, routes).mutual(),
        plan.base(web, routes).points.len() + s.1.len() + d.1.len() + 3 < usize::MAX,
        plan.width >= 0,
        plan.spacing >= 0,
        0 <= k < plan.attempt(web, routes, s, d).path.len(),
        a < plan.attempt(web, routes, s, d).web.points.len(),
        b < plan.attempt(web, routes, s, d).web.points.len(),
        plan.attempt(web, routes, s, d).web.edge(a, b),
    ensures
        plan.attempt(web, routes, s, d).web.points[a as int] != plan.attempt(
            web,
            routes,
            s,
            d,
        ).path[k],
        plan.attempt(web, routes, s, d).web.points[b as int] != plan.attempt(
            web,
            routes,
            s,
            d,
        ).path[k],
{
    reveal(Plan::attempt);
    let start = plan.base(web, routes);
    let (near, far) = (plan.open(s.1, routes), plan.open(d.1, routes));
    s.1.lemma_filter_len(
        |p: Point|
            !crate::rdl::access::crowded(
                p,
                tracks(routes),
                crate::geom::half(plan.width + plan.spacing),
            ),
    );
    d.1.lemma_filter_len(
        |p: Point|
            !crate::rdl::access::crowded(
                p,
                tracks(routes),
                crate::geom::half(plan.width + plan.spacing),
            ),
    );
    let one = grafted(start, plan.grid, s.0, near, plan.allow45, plan.blocked);
    lemma_grafted_sound(start, plan.grid, s.0, near, plan.allow45, plan.blocked);
    let two = grafted(one.web, plan.grid, d.0, far, plan.allow45, plan.blocked);
    lemma_grafted_sound(one.web, plan.grid, d.0, far, plan.allow45, plan.blocked);
    let path = found(two.web, s.0, d.0, plan.penalty);
    let points = two.web.points;
    assert(speaks_of(two.record, points.len() as int));
    assert(speaks_of(one.record, points.len() as int)) by {
        let (m, n) = (one.web.points.len() as int, points.len() as int);
        assert(one.record.within(m) && of_pairs(one.record.restore, m) && m <= n);
    }
    if a < points.len() && b < points.len() && (points[a as int] == path[k] || points[b as int]
        == path[k]) {
        lemma_alone(two.web, two.record, one.record, path, tracks(routes), plan, a, b, k);
    }
    lemma_points_kept(two.web, two.record, one.record, path, tracks(routes), plan);
}

/// Committing a path and undoing two changes moves no vertex.
proof fn lemma_points_kept(
    web: Web,
    far: Record,
    near: Record,
    path: Seq<Point>,
    before: Seq<Seq<Point>>,
    plan: Plan,
)
    requires
        web.wf(),
        web.mutual(),
        web.points.len() <= usize::MAX,
        speaks_of(far, web.points.len() as int),
        speaks_of(near, web.points.len() as int),
        web.points.len() > 0,
    ensures
        ({
            let c = committed(web, path, plan.width, plan.spacing, plan.allow45);
            let laid = before.push(path);
            let conflict = |p: Point, q: Point| (plan.blocked)(p, q) || touched(laid, p, q);
            c.web.undone(far, conflict).undone(near, conflict).points == web.points
        }),
{
    let c = committed(web, path, plan.width, plan.spacing, plan.allow45);
    lemma_committed_sound(web, path, plan.width, plan.spacing, plan.allow45);
    let laid = before.push(path);
    let conflict = |p: Point, q: Point| (plan.blocked)(p, q) || touched(laid, p, q);
    lemma_undone_edges(c.web, far, conflict, 0, 0);
    lemma_undone_edges(c.web.undone(far, conflict), near, conflict, 0, 0);
}

/// An attempt that finds no path leaves no trace: between the vertices that were there before, the graph has the
/// edges that it had, and no others. So it is where every snap point that is open lies between vertices
/// rather than on one.
pub proof fn law_vain_attempt_leaves_no_trace(
    plan: Plan,
    web: Web,
    routes: Seq<RouteView>,
    s: (Point, Seq<Point>),
    d: (Point, Seq<Point>),
    x: usize,
    y: usize,
)
    requires
        plan.base(web, routes).wf(),
        plan.base(web, routes).mutual(),
        plan.base(web, routes).points.len() + s.1.len() + d.1.len() + 3 < usize::MAX,
        plan.attempt(web, routes, s, d).path.len() == 0,
        forall|i: int|
            0 <= i < plan.open(s.1, routes).len() ==> !plan.base(web, routes).points.contains(
                #[trigger] plan.open(s.1, routes)[i],
            ),
        forall|i: int|
            0 <= i < plan.open(d.1, routes).len() ==> !grafted(
                plan.base(web, routes),
                plan.grid,
                s.0,
                plan.open(s.1, routes),
                plan.allow45,
                plan.blocked,
            ).web.points.contains(#[trigger] plan.open(d.1, routes)[i]),
        x < plan.base(web, routes).points.len(),
        y < plan.base(web, routes).points.len(),
    ensures
        plan.attempt(web, routes, s, d).web.edge(x, y) == plan.base(web, routes).edge(x, y),
{
    reveal(Plan::attempt);
    s.1.lemma_filter_len(
        |p: Point|
            !crate::rdl::access::crowded(
                p,
                tracks(routes),
                crate::geom::half(plan.width + plan.spacing),
            ),
    );
    d.1.lemma_filter_len(
        |p: Point|
            !crate::rdl::access::crowded(
                p,
                tracks(routes),
                crate::geom::half(plan.width + plan.spacing),
            ),
    );
    crate::rdl::restore::law_both_accesses_are_undone(
        plan.base(web, routes),
        plan.grid,
        (s.0, plan.open(s.1, routes)),
        (d.0, plan.open(d.1, routes)),
        plan.allow45,
        plan.blocked,
        x,
        y,
    );
}

/// A terminal may be entered at exactly those of its snap points that no point of a laid route comes within a
/// wire and its spacing of, along both axes, but for the unit that an odd sum loses.
pub proof fn law_open_snaps(plan: Plan, snaps: Seq<Point>, routes: Seq<RouteView>, p: Point)
    requires
        plan.width + plan.spacing >= 0,
    ensures
        ({
            let sum = plan.width + plan.spacing;
            let reach = sum - sum % 2;
            let laid = tracks(routes);
            plan.open(snaps, routes).contains(p) <==> snaps.contains(p) && forall|k: int, i: int|
                0 <= k < laid.len() && 0 <= i < laid[k].len() ==> {
                    let q = #[trigger] laid[k][i];
                    p.0 - q.0 > reach || q.0 - p.0 > reach || p.1 - q.1 > reach || q.1 - p.1 > reach
                }
        }),
{
    let reach = crate::geom::half(plan.width + plan.spacing);
    let laid = tracks(routes);
    let keep = |p: Point| !crate::rdl::access::crowded(p, laid, reach);
    crate::rdl::access::law_crowded_is_close(p, laid, reach);
    let open = plan.open(snaps, routes);
    assert(open == snaps.filter(keep));
    if open.contains(p) {
        let i = choose|i: int| 0 <= i < open.len() && open[i] == p;
        snaps.lemma_filter_pred(keep, i);
        snaps.lemma_filter_contains_rev(keep, p);
    }
    if snaps.contains(p) && keep(p) {
        let i = choose|i: int| 0 <= i < snaps.len() && snaps[i] == p;
        snaps.lemma_filter_contains(keep, i);
    }
}

} // verus!
