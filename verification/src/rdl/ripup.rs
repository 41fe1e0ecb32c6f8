//! Which routes a failure displaces, and what is done with them between two rounds.

use crate::geom::{around, meets, pt, Point};
use crate::lists::lemma_those;
use crate::rdl::route::{displaced, failures, margin, passes, probed, served, yields, RouteView};
use crate::rdl::router::{done, is_ripped, lined_up, retried_all, ripped, uprooted_all, Plan, Run};
use crate::rdl::touch::{law_hits_is_shared_point, reaches};
use vstd::prelude::*;

verus! {

/// A point of the line from `a` to `b` lies within `d` of `p` along each axis.
pub open spec fn comes_within(a: Point, b: Point, p: Point, d: int) -> bool {
    exists|m: int, n: int| #[trigger]
        reaches(pt(a), pt(b), (p.0 - d, p.1 - d, p.0 + d, p.1 + d), m, n)
}

/// A point of the line from `a` to `b` lies within `d` of one of the points along each axis.
pub open spec fn comes_near(a: Point, b: Point, points: Seq<Point>, d: int) -> bool {
    exists|k: int| 0 <= k < points.len() && #[trigger] comes_within(a, b, points[k], d)
}

/// The route is laid in the way of the failed one. It is routed; its priority is no higher; and the line
/// that the failed route probes, from its own centre to that of one of its destinations, comes near
/// one of its points. The destinations take turns as the failed route's priority rises, and near is
/// farther each time.
pub open spec fn in_the_way(failed: RouteView, r: RouteView, extent: int) -> bool {
    let turn = (if failed.priority < 0 {
        0
    } else {
        failed.priority as int
    }) % (failed.dests.len() as int);
    &&& failed.dests.len() > 0
    &&& r.routed
    &&& r.priority <= failed.priority
    &&& comes_near(
        failed.centre,
        failed.dests[turn].centre,
        r.points,
        (failed.priority + 1) * extent,
    )
}

/// A failure displaces exactly the routes that are laid in its way.
pub proof fn law_displaced_is_in_the_way(
    failed: RouteView,
    routes: Seq<RouteView>,
    extent: int,
    t: usize,
)
    requires
        routes.len() <= usize::MAX,
        failed.priority >= -1,
        extent >= 0,
    ensures
        displaced(failed, routes, extent).contains(t) <==> t < routes.len() && in_the_way(
            failed,
            routes[t as int],
            extent,
        ),
{
    if failed.dests.len() > 0 {
        let cond = |i: usize|
            yields(routes[i as int], failed.priority) && passes(
                failed.centre,
                failed.dests[probed(failed)].centre,
                routes[i as int].points,
                margin(failed, extent),
            );
        lemma_those(routes.len(), cond);
        let (a, b) = (failed.centre, failed.dests[probed(failed)].centre);
        let d = (failed.priority + 1) * extent;
        assert(d >= 0) by (nonlinear_arith)
            requires
                d == (failed.priority + 1) * extent,
                failed.priority >= -1,
                extent >= 0,
        ;
        if t < routes.len() {
            lemma_near(a, b, routes[t as int].points, d);
        }
    }
}

proof fn lemma_near(a: Point, b: Point, points: Seq<Point>, d: int)
    requires
        d >= 0,
    ensures
        passes(a, b, points, d) <==> comes_near(a, b, points, d),
{
    if passes(a, b, points, d) {
        let k = choose|k: int|
            0 <= k < points.len() && meets(pt(a), pt(b), around(pt(#[trigger] points[k]), d));
        let p = points[k];
        law_hits_is_shared_point(pt(a), pt(b), (p.0 - d, p.1 - d, p.0 + d, p.1 + d));
        assert(comes_within(a, b, points[k], d));
    }
    if comes_near(a, b, points, d) {
        let k = choose|k: int| 0 <= k < points.len() && #[trigger] comes_within(a, b, points[k], d);
        let p = points[k];
        law_hits_is_shared_point(pt(a), pt(b), (p.0 - d, p.1 - d, p.0 + d, p.1 + d));
        assert(meets(pt(a), pt(b), around(pt(points[k]), d)));
    }
}

/// Between two rounds exactly those routes are taken out that some failed route displaces.
pub proof fn law_ripped_is_displaced(
    routes: Seq<RouteView>,
    failed: Seq<usize>,
    extent: int,
    t: usize,
)
    requires
        routes.len() <= usize::MAX,
        forall|i: int| 0 <= i < failed.len() ==> (#[trigger] failed[i]) < routes.len(),
    ensures
        ripped(routes, failed, extent).contains(t) <==> exists|f: usize|
            failed.contains(f) && #[trigger] displaced(
                routes[f as int],
                routes,
                extent,
            ).contains(t),
{
    lemma_those(routes.len(), |t: usize| is_ripped(routes, failed, extent, t));
    if exists|f: usize|
        failed.contains(f) && #[trigger] displaced(routes[f as int], routes, extent).contains(t) {
        let f = choose|f: usize|
            failed.contains(f) && #[trigger] displaced(
                routes[f as int],
                routes,
                extent,
            ).contains(t);
        let i = choose|i: int| 0 <= i < failed.len() && failed[i] == f;
        assert(displaced(routes[failed[i] as int], routes, extent).contains(t));
        lemma_displaced_below(routes[f as int], routes, extent, t);
    }
    if ripped(routes, failed, extent).contains(t) {
        let m = choose|m: int|
            0 <= m < failed.len() && displaced(
                routes[(#[trigger] failed[m]) as int],
                routes,
                extent,
            ).contains(t);
        assert(failed.contains(failed[m]));
    }
}

proof fn lemma_displaced_below(failed: RouteView, routes: Seq<RouteView>, extent: int, t: usize)
    requires
        routes.len() <= usize::MAX,
        displaced(failed, routes, extent).contains(t),
    ensures
        t < routes.len(),
        routes[t as int].routed,
{
    let cond = |i: usize|
        yields(routes[i as int], failed.priority) && passes(
            failed.centre,
            failed.dests[probed(failed)].centre,
            routes[i as int].points,
            margin(failed, extent),
        );
    lemma_those(routes.len(), cond);
}

/// A routed route serves a terminal: it starts there, or the destination it tried last is there.
pub open spec fn serves(r: RouteView, terminal: Seq<char>) -> bool {
    let last: int = if r.next == 0 {
        0
    } else {
        r.next - 1
    };
    r.routed && (r.source == terminal || (last < r.dests.len() && r.dests[last].terminal
        == terminal))
}

/// A route counts as failed when it has been off the queue, is not routed and has no destination left
/// to try, and no routed route serves its source.
pub proof fn law_failures_are_stranded(routes: Seq<RouteView>, t: usize)
    requires
        routes.len() <= usize::MAX,
    ensures
        failures(routes).contains(t) <==> {
            &&& t < routes.len()
            &&& !routes[t as int].pending && !routes[t as int].routed
            &&& routes[t as int].next >= routes[t as int].dests.len()
            &&& forall|k: int|
                0 <= k < routes.len() ==> !serves(#[trigger] routes[k], routes[t as int].source)
        },
{
    let cond = |i: usize| routes[i as int].failed() && !served(routes, routes[i as int].source);
    lemma_those(routes.len(), cond);
    if t < routes.len() {
        let s = routes[t as int].source;
        if served(routes, s) {
            let k = choose|k: int|
                0 <= k < routes.len() && (#[trigger] routes[k]).routed && (routes[k].source == s || (
                routes[k].reached() matches Some(d) && d.terminal == s));
            assert(serves(routes[k], s));
        }
        if exists|k: int| 0 <= k < routes.len() && serves(#[trigger] routes[k], s) {
            let k = choose|k: int| 0 <= k < routes.len() && serves(#[trigger] routes[k], s);
            assert(routes[k].routed);
        }
    }
}

/// What routes were taken out of a run, and what was not touched.
proof fn lemma_uprooted_each(run: Run, list: Seq<usize>, k: int)
    requires
        0 <= k < run.routes.len() <= usize::MAX,
        run.committed.len() == run.routes.len(),
        forall|i: int| 0 <= i < list.len() ==> (#[trigger] list[i]) < run.routes.len(),
    ensures
        ({
            let after = uprooted_all(run, list);
            let (was, now) = (run.routes[k], after.routes[k]);
            &&& after.routes.len() == run.routes.len()
            &&& after.committed.len() == run.committed.len()
            &&& after.queue == run.queue + list
            &&& now == if list.contains(k as usize) {
                RouteView { routed: false, points: Seq::empty(), next: 0, pending: true, ..was }
            } else {
                was
            }
            &&& after.committed[k] == if list.contains(k as usize) {
                None
            } else {
                run.committed[k]
            }
            &&& after.log == run.log && after.attempts == run.attempts
        }),
    decreases list.len(),
{
    if list.len() > 0 {
        let head = list.drop_last();
        assert forall|i: int| 0 <= i < head.len() implies (#[trigger] head[i])
            < run.routes.len() by {
            assert(list[i] == head[i]);
        }
        lemma_uprooted_each(run, head, k);
        assert(list =~= head.push(list.last()));
        crate::lists::lemma_push_contains(head, list.last(), k as usize);
        assert(list[list.len() - 1] < run.routes.len());
        assert((run.queue + head).push(list.last()) =~= run.queue + list);
    } else {
        assert(run.queue + list =~= run.queue);
    }
}

proof fn lemma_retried_each(run: Run, list: Seq<usize>, k: int)
    requires
        0 <= k < run.routes.len() <= usize::MAX,
        list.no_duplicates(),
        forall|i: int| 0 <= i < list.len() ==> (#[trigger] list[i]) < run.routes.len(),
    ensures
        ({
            let after = retried_all(run, list);
            let (was, now) = (run.routes[k], after.routes[k]);
            &&& after.routes.len() == run.routes.len()
            &&& after.queue == run.queue + list
            &&& now == if list.contains(k as usize) {
                RouteView { priority: (was.priority + 1) as i32, next: 0, pending: true, ..was }
            } else {
                was
            }
            &&& after.web == run.web && after.committed == run.committed && after.log == run.log
                && after.attempts == run.attempts
        }),
    decreases list.len(),
{
    if list.len() > 0 {
        let head = list.drop_last();
        assert forall|i: int| 0 <= i < head.len() implies (#[trigger] head[i])
            < run.routes.len() by {
            assert(list[i] == head[i]);
        }
        assert(head.no_duplicates()) by {
            assert forall|a: int, b: int| 0 <= a < b < head.len() implies head[a] != head[b] by {
                assert(list[a] != list[b]);
            }
        }
        lemma_retried_each(run, head, k);
        assert(list =~= head.push(list.last()));
        crate::lists::lemma_push_contains(head, list.last(), k as usize);
        assert(list[list.len() - 1] < run.routes.len());
        if head.contains(list.last()) {
            let a = choose|a: int| 0 <= a < head.len() && head[a] == list.last();
            assert(list[a] == list[list.len() - 1]);
        }
        assert((run.queue + head).push(list.last()) =~= run.queue + list);
    } else {
        assert(run.queue + list =~= run.queue);
    }
}

/// How a run goes into its next round, as route `t` sees it. Laid in the way of a failed route, it is
/// taken out, its path forgotten, and queued to start over at its first destination. Failed itself,
/// it is queued to start over with a higher priority. Otherwise it stays as it is and is not queued.
pub open spec fn goes_on(end: Run, next: Run, extent: int, t: usize) -> bool {
    let (was, now) = (end.routes[t as int], next.routes[t as int]);
    let hit = exists|f: usize|
        #[trigger] failures(end.routes).contains(f) && in_the_way(
            end.routes[f as int],
            was,
            extent,
        );
    let lost = failures(end.routes).contains(t);
    &&& next.queue.contains(t) <==> hit || lost
    &&& hit ==> !now.routed && now.pending && now.points.len() == 0 && now.next == 0
        && now.priority == was.priority
    &&& lost ==> !now.routed && now.pending && now.next == 0 && now.priority == was.priority + 1
    &&& !hit && !lost ==> now == was
    &&& now.source == was.source && now.dests == was.dests && now.centre == was.centre && now.id
        == was.id && now.locked == was.locked
}

/// A round that does not end a run: it was not the last one allowed, it routed another set of sources
/// than the round before, and something failed. Then the run goes on with the routes rearranged: what
/// was laid in a failed route's way is taken out and queued, what failed is queued with a higher
/// priority, and the rest is left alone.
pub proof fn law_run_goes_on(
    plan: Plan,
    run: Run,
    iterations: int,
    last: Set<Seq<char>>,
    most: int,
)
    requires
        ({
            let end = plan.drained(lined_up(run));
            &&& end.routes.len() <= usize::MAX
            &&& end.committed.len() == end.routes.len()
            &&& end.queue.len() == 0
            &&& forall|i: int|
                0 <= i < end.routes.len() ==> -1 <= (#[trigger] end.routes[i]).priority < i32::MAX
            &&& failures(end.routes).len() > 0
            &&& iterations < most
            &&& plan.spacing + plan.width >= 0
            &&& !(forall|s: Seq<char>| #[trigger]
                last.contains(s) <==> exists|k: int|
                    0 <= k < end.routes.len() && (#[trigger] end.routes[k]).routed
                        && end.routes[k].source == s)
        }),
    ensures
        ({
            let end = plan.drained(lined_up(run));
            exists|next: Run, before: Set<Seq<char>>|
                #![trigger plan.rounds(next, iterations + 1, before, most)]
                plan.rounds(run, iterations, last, most) == plan.rounds(
                    next,
                    iterations + 1,
                    before,
                    most,
                ) && next.routes.len() == end.routes.len() && (forall|s: Seq<char>| #[trigger]
                    before.contains(s) <==> exists|k: int|
                        0 <= k < end.routes.len() && (#[trigger] end.routes[k]).routed
                            && end.routes[k].source == s) && forall|t: usize|
                    t < end.routes.len() ==> #[trigger] goes_on(
                        end,
                        next,
                        plan.spacing + plan.width,
                        t,
                    )
        }),
{
    let end = plan.drained(lined_up(run));
    let extent = plan.spacing + plan.width;
    let failed = failures(end.routes);
    let out = ripped(end.routes, failed, extent);
    let next = retried_all(uprooted_all(end, out), failed);
    assert(done(end.routes) != last);
    assert(plan.rounds(run, iterations, last, most) == plan.rounds(
        next,
        iterations + 1,
        done(end.routes),
        most,
    ));
    assert forall|t: usize| t < end.routes.len() implies #[trigger] goes_on(
        end,
        next,
        extent,
        t,
    ) by {
        lemma_goes_on(end, extent, t);
    }
    law_failures_are_stranded(end.routes, failed[0]);
    assert(failed.contains(failed[0]));
    lemma_goes_on(end, extent, failed[0]);
}

proof fn lemma_goes_on(end: Run, extent: int, t: usize)
    requires
        end.routes.len() <= usize::MAX,
        end.committed.len() == end.routes.len(),
        end.queue.len() == 0,
        forall|i: int|
            0 <= i < end.routes.len() ==> -1 <= (#[trigger] end.routes[i]).priority < i32::MAX,
        extent >= 0,
        t < end.routes.len(),
    ensures
        ({
            let failed = failures(end.routes);
            let out = ripped(end.routes, failed, extent);
            let next = retried_all(uprooted_all(end, out), failed);
            &&& next.routes.len() == end.routes.len()
            &&& goes_on(end, next, extent, t)
        }),
{
    let failed = failures(end.routes);
    let out = ripped(end.routes, failed, extent);
    let mid = uprooted_all(end, out);
    let next = retried_all(mid, failed);
    lemma_those(
        end.routes.len(),
        |i: usize| end.routes[i as int].failed() && !served(end.routes, end.routes[i as int].source),
    );
    lemma_those(end.routes.len(), |t: usize| is_ripped(end.routes, failed, extent, t));
    law_ripped_is_displaced(end.routes, failed, extent, t);
    law_failures_are_stranded(end.routes, t);
    lemma_uprooted_each(end, out, t as int);
    assert(failed.no_duplicates()) by {
        assert forall|a: int, b: int| 0 <= a < b < failed.len() implies failed[a] != failed[b] by {
            assert(failed[a] < failed[b]);
        }
    }
    lemma_retried_each(mid, failed, t as int);
    let was = end.routes[t as int];
    let hit = exists|f: usize|
        #[trigger] failed.contains(f) && in_the_way(end.routes[f as int], was, extent);
    assert(hit == out.contains(t)) by {
        if hit {
            let f = choose|f: usize|
                #[trigger] failed.contains(f) && in_the_way(end.routes[f as int], was, extent);
            law_failures_are_stranded(end.routes, f);
            law_displaced_is_in_the_way(end.routes[f as int], end.routes, extent, t);
            assert(displaced(end.routes[f as int], end.routes, extent).contains(t));
        }
        if out.contains(t) {
            let f = choose|f: usize|
                failed.contains(f) && #[trigger] displaced(
                    end.routes[f as int],
                    end.routes,
                    extent,
                ).contains(t);
            law_failures_are_stranded(end.routes, f);
            law_displaced_is_in_the_way(end.routes[f as int], end.routes, extent, t);
        }
    }
    assert(end.queue + out =~= out);
    let queue = out + failed;
    assert(next.queue == queue);
    assert(queue.contains(t) <==> out.contains(t) || failed.contains(t)) by {
        if out.contains(t) {
            let i = choose|i: int| 0 <= i < out.len() && out[i] == t;
            assert(queue[i] == t);
        }
        if failed.contains(t) {
            let i = choose|i: int| 0 <= i < failed.len() && failed[i] == t;
            assert(queue[out.len() + i] == t);
        }
        if queue.contains(t) {
            let i = choose|i: int| 0 <= i < queue.len() && queue[i] == t;
            if i < out.len() {
                assert(out[i] == t);
            } else {
                assert(failed[i - out.len()] == t);
            }
        }
    }
}

/// Why a run ends: it has made as many rounds as it may, or its last round routed the same sources as
/// the one before, or nothing failed that is worth acting on.
pub proof fn law_why_a_run_ends(
    plan: Plan,
    run: Run,
    iterations: int,
    last: Set<Seq<char>>,
    most: int,
)
    requires
        iterations <= most,
    ensures
        ({
            let (end, rounds) = plan.rounds(run, iterations, last, most);
            rounds > most || failures(end.routes).len() == 0 || exists|before: Set<Seq<char>>|
                #![trigger same_sources(end.routes, before)]
                same_sources(end.routes, before) && (rounds == iterations + 1 ==> before == last)
        }),
    decreases most - iterations,
{
    let end = plan.drained(lined_up(run));
    let failed = failures(end.routes);
    if iterations + 1 > most || done(end.routes) == last || failed.len() == 0 {
        if done(end.routes) == last {
            assert(same_sources(end.routes, last));
        }
    } else {
        let out = ripped(end.routes, failed, plan.spacing + plan.width);
        let next = retried_all(uprooted_all(end, out), failed);
        crate::rdl::router::law_rounds_are_bounded(
            plan,
            next,
            iterations + 1,
            done(end.routes),
            most,
        );
        law_why_a_run_ends(plan, next, iterations + 1, done(end.routes), most);
    }
}

/// The routed routes start from exactly these sources.
pub open spec fn same_sources(routes: Seq<RouteView>, sources: Set<Seq<char>>) -> bool {
    forall|s: Seq<char>| #[trigger]
        sources.contains(s) <==> exists|k: int|
            0 <= k < routes.len() && (#[trigger] routes[k]).routed && routes[k].source == s
}

} // verus!
