//! Which route is served next, on which destination, and what that does to the run.

use crate::geom::{pt, Point};
use crate::lists::lemma_those;
use crate::rdl::connect::{connected, pairs_of};
use crate::rdl::cost::{lemma_length_exists, length};
use crate::rdl::route::{before, nearer, pair_order, pairings, DestView, RouteView};
use crate::rdl::router::{
    advanced, fresh_run, lined_up, taken, terminal_of, tracks, unrouted, LogView, Plan, Run,
    TerminalView,
};
use crate::rdl::graph::Web;
use crate::sort::{
    arranged, law_arranged_in_order, law_arranged_same, law_arranged_steady, lemma_arranged_agree,
    weak_order,
};
use vstd::prelude::*;

verus! {

/// The square of the distance between two points.
pub open spec fn apart(a: Point, b: Point) -> int {
    (a.0 - b.0) * (a.0 - b.0) + (a.1 - b.1) * (a.1 - b.1)
}

/// The square of the distance to a route's next destination.
pub open spec fn ahead(r: RouteView) -> int {
    apart(r.centre, r.dests[r.next as int].centre)
}

/// Of two routes the one with the higher priority goes first. Where they are alike in that and both have
/// a destination left, the one that is nearer to it goes first, and where they are as near, the one
/// with the higher id. Where one has none left, neither goes first.
pub proof fn law_who_goes_first(a: RouteView, b: RouteView)
    ensures
        a.priority != b.priority ==> (before(a, b) <==> a.priority > b.priority),
        a.priority == b.priority && a.next < a.dests.len() && b.next < b.dests.len() ==> (before(
            a,
            b,
        ) <==> ahead(a) < ahead(b) || (ahead(a) == ahead(b) && a.id > b.id)),
        a.priority == b.priority && (a.next >= a.dests.len() || b.next >= b.dests.len()) ==> !before(
            a,
            b,
        ),
{
}

/// A round starts with the same routes in the queue, put in order: none stands behind one of a lower
/// priority, nor, of the same priority, behind one that is farther from its next destination, nor, as
/// far from it, behind one with a lower id.
pub proof fn law_queue_is_lined_up(run: Run, i: int, j: int)
    requires
        forall|k: int|
            0 <= k < run.queue.len() ==> run.routes[(#[trigger] run.queue[k]) as int].next
                < run.routes[run.queue[k] as int].dests.len(),
        0 <= i < j < run.queue.len(),
    ensures
        ({
            let queue = lined_up(run).queue;
            let (a, b) = (run.routes[queue[i] as int], run.routes[queue[j] as int]);
            &&& queue.len() == run.queue.len()
            &&& forall|t: usize| #[trigger] queue.contains(t) <==> run.queue.contains(t)
            &&& a.priority >= b.priority
            &&& a.priority == b.priority ==> ahead(a) <= ahead(b)
            &&& a.priority == b.priority && ahead(a) == ahead(b) ==> a.id >= b.id
            &&& lined_up(run).routes == run.routes && lined_up(run).web == run.web
        }),
{
    let less = |a: usize, b: usize| before(run.routes[a as int], run.routes[b as int]);
    let rule = |a: usize, b: usize|
        {
            let (x, y) = (run.routes[a as int], run.routes[b as int]);
            x.priority > y.priority || (x.priority == y.priority && (ahead(x) < ahead(y) || (ahead(x)
                == ahead(y) && x.id > y.id)))
        };
    assert forall|a: usize, b: usize| run.queue.contains(a) && run.queue.contains(b) implies
        #[trigger] less(a, b) == rule(a, b) by {
        let m = choose|m: int| 0 <= m < run.queue.len() && run.queue[m] == a;
        let n = choose|n: int| 0 <= n < run.queue.len() && run.queue[n] == b;
        law_who_goes_first(run.routes[run.queue[m] as int], run.routes[run.queue[n] as int]);
    }
    lemma_arranged_agree(run.queue, less, rule);
    assert(weak_order(rule));
    law_arranged_in_order(run.queue, rule);
    law_arranged_same(run.queue, rule);
    let queue = lined_up(run).queue;
    assert(queue == arranged(run.queue, rule));
    assert(!rule(queue[j], queue[i]));
}

/// Two terminals are tried on every pairing of their targets, each once, those the least far apart, in
/// whole units, first. Of those as far apart, the one with the lesser source, by its x and then by its
/// y, goes first, and of one source the one with the lesser destination.
pub proof fn law_pairs_in_order(src: Seq<Point>, dst: Seq<Point>, k: int, m: int, r: int)
    requires
        src.len() * dst.len() <= usize::MAX,
        0 <= k < m < pair_order(src, dst).len(),
        r >= 0,
    ensures
        ({
            let order = pair_order(src, dst);
            let (a, b) = (order[k], order[m]);
            &&& order.len() == src.len() * dst.len()
            &&& a != b
            &&& a.0 < src.len() && a.1 < dst.len() && b.0 < src.len() && b.1 < dst.len()
            &&& apart(src[b.0 as int], dst[b.1 as int]) < r * r ==> apart(
                src[a.0 as int],
                dst[a.1 as int],
            ) < r * r
            &&& r * r <= apart(src[a.0 as int], dst[a.1 as int]) < (r + 1) * (r + 1) && r * r <= apart(
                src[b.0 as int],
                dst[b.1 as int],
            ) < (r + 1) * (r + 1) ==> {
                let (p, q) = (src[a.0 as int], dst[a.1 as int]);
                let (u, v) = (src[b.0 as int], dst[b.1 as int]);
                &&& p.0 <= u.0
                &&& p.0 == u.0 ==> p.1 <= u.1
                &&& p == u ==> q.0 <= v.0
                &&& p == u && q.0 == v.0 ==> q.1 <= v.1
            }
        }),
{
    let all = pairings(src.len(), dst.len());
    let rule = |i: usize, j: usize|
        nearer(
            (src[all[i as int].0 as int], dst[all[i as int].1 as int]),
            (src[all[j as int].0 as int], dst[all[j as int].1 as int]),
        );
    let list = crate::lists::upto(all.len());
    let places = arranged(list, rule);
    assert(weak_order(rule));
    assert(crate::lists::increasing(list));
    law_arranged_in_order(list, rule);
    law_arranged_same(list, rule);
    law_arranged_steady(list, rule);
    let order = pair_order(src, dst);
    assert(places.contains(places[k]) && places.contains(places[m]));
    let (x, y) = (places[k] as int, places[m] as int);
    lemma_pairing(src.len(), dst.len(), x);
    lemma_pairing(src.len(), dst.len(), y);
    assert(places[k] != places[m]) by {
        if places[k] == places[m] {
            assert(!rule(places[k], places[m]));
        }
    }
    assert(!rule(places[m], places[k]));
    let (p, q) = (src[all[x].0 as int], dst[all[x].1 as int]);
    let (u, v) = (src[all[y].0 as int], dst[all[y].1 as int]);
    assert(order[k] == all[x] && order[m] == all[y]);
    lemma_length_exists(pt(p), pt(q));
    lemma_length_exists(pt(u), pt(v));
    let (near, far) = (length(pt(p), pt(q)), length(pt(u), pt(v)));
    assert(near <= far);
    if r * r <= apart(p, q) < (r + 1) * (r + 1) && r * r <= apart(u, v) < (r + 1) * (r + 1) {
        lemma_whole_distance(apart(p, q), near, r);
        lemma_whole_distance(apart(u, v), far, r);
    }
    if apart(u, v) < r * r {
        assert(far < r) by (nonlinear_arith)
            requires
                far * far <= apart(u, v),
                apart(u, v) < r * r,
                r >= 0,
                far >= 0,
        ;
        assert((near + 1) * (near + 1) <= r * r) by (nonlinear_arith)
            requires
                0 <= near + 1 <= r,
        ;
    }
}

/// The whole distance of two points is told by its square.
proof fn lemma_whole_distance(square: int, m: int, r: int)
    requires
        m >= 0 && r >= 0,
        m * m <= square < (m + 1) * (m + 1),
        r * r <= square < (r + 1) * (r + 1),
    ensures
        m == r,
{
    assert(m < r + 1) by (nonlinear_arith)
        requires
            m * m < (r + 1) * (r + 1),
            m >= 0 && r >= 0,
    ;
    assert(r < m + 1) by (nonlinear_arith)
        requires
            r * r < (m + 1) * (m + 1),
            m >= 0 && r >= 0,
    ;
}

/// Where a pairing stands, and that it is told by where it stands.
proof fn lemma_pairing(m: nat, n: nat, k: int)
    requires
        0 <= k < m * n <= usize::MAX,
    ensures
        pairings(m, n)[k].0 < m,
        pairings(m, n)[k].1 < n,
        pairings(m, n)[k].0 * n + pairings(m, n)[k].1 == k,
{
    assert(n > 0) by (nonlinear_arith)
        requires
            0 < m * n,
    ;
    vstd::arithmetic::div_mod::lemma_fundamental_div_mod(k, n as int);
    vstd::arithmetic::div_mod::lemma_mod_bound(k, n as int);
    vstd::arithmetic::div_mod::lemma_div_pos_is_pos(k, n as int);
    let q = k / (n as int);
    assert(n * q == q * n) by (nonlinear_arith);
    assert(q < m) by (nonlinear_arith)
        requires
            q * n <= k,
            k < m * n,
            n > 0,
    ;
    assert(n <= m * n && m <= m * n) by (nonlinear_arith)
        requires
            m > 0,
            n > 0,
    ;
}

/// Every pairing is among them.
pub proof fn law_every_pairing_is_tried(src: Seq<Point>, dst: Seq<Point>, i: usize, j: usize)
    requires
        src.len() * dst.len() <= usize::MAX,
        i < src.len(),
        j < dst.len(),
    ensures
        pair_order(src, dst).contains((i, j)),
{
    let all = pairings(src.len(), dst.len());
    let rule = |i: usize, j: usize|
        nearer(
            (src[all[i as int].0 as int], dst[all[i as int].1 as int]),
            (src[all[j as int].0 as int], dst[all[j as int].1 as int]),
        );
    let list = crate::lists::upto(all.len());
    let places = arranged(list, rule);
    law_arranged_same(list, rule);
    let n = dst.len() as int;
    let k = i * n + j;
    assert(0 <= k < src.len() * n) by (nonlinear_arith)
        requires
            0 <= i <= src.len() - 1,
            0 <= j < n,
            k == i * n + j,
    ;
    vstd::arithmetic::div_mod::lemma_fundamental_div_mod_converse(k, n, i as int, j as int);
    assert(all[k] == (i, j));
    assert(list[k] == k as usize);
    assert(list.contains(k as usize));
    assert(places.contains(k as usize));
    let m = choose|m: int| 0 <= m < places.len() && places[m] == k as usize;
    assert(pair_order(src, dst)[m] == (i, j));
}

/// The route has a path of its own and ends at the terminal: that of the destination it tried last.
pub open spec fn ends_at(r: RouteView, terminal: Seq<char>) -> bool {
    let last: int = if r.next == 0 {
        0
    } else {
        r.next - 1
    };
    r.routed && r.points.len() > 1 && last < r.dests.len() && r.dests[last].terminal == terminal
}

/// Two terminals are joined by one route, from either end.
pub open spec fn joins(r: RouteView, a: Seq<char>, b: Seq<char>) -> bool {
    (r.source == a && ends_at(r, b)) || (r.source == b && ends_at(r, a))
}

/// The pairs that count as joined are those that a route with a path of its own joins.
pub proof fn law_joined_pairs(routes: Seq<RouteView>, a: Seq<char>, b: Seq<char>)
    ensures
        pairs_of(routes).contains((a, b)) <==> exists|k: int|
            0 <= k < routes.len() && joins(#[trigger] routes[k], a, b),
    decreases routes.len(),
{
    if routes.len() > 0 {
        let head = routes.drop_last();
        let r = routes.last();
        law_joined_pairs(head, a, b);
        let rest = pairs_of(head);
        if let Some(d) = r.reached() {
            let one = rest.push((r.source, d.terminal));
            crate::lists::lemma_push_contains(rest, (r.source, d.terminal), (a, b));
            crate::lists::lemma_push_contains(one, (d.terminal, r.source), (a, b));
        }
        assert(pairs_of(routes).contains((a, b)) <==> rest.contains((a, b)) || joins(r, a, b));
        if rest.contains((a, b)) {
            let k = choose|k: int| 0 <= k < head.len() && joins(#[trigger] head[k], a, b);
            assert(joins(routes[k], a, b));
        }
        if joins(r, a, b) {
            assert(joins(routes[routes.len() - 1], a, b));
        }
        if exists|k: int| 0 <= k < routes.len() && joins(#[trigger] routes[k], a, b) {
            let k = choose|k: int| 0 <= k < routes.len() && joins(#[trigger] routes[k], a, b);
            if k < head.len() {
                assert(joins(head[k], a, b));
            }
        }
    } else {
        assert(!pairs_of(routes).contains((a, b)));
    }
}

/// A destination a route passes over: a pad where another route already ends, or a terminal that it is
/// already connected to through laid routes.
pub open spec fn passed_over(routes: Seq<RouteView>, source: Seq<char>, d: DestView) -> bool {
    ||| !d.cover && exists|k: int| 0 <= k < routes.len() && ends_at(#[trigger] routes[k], d.terminal)
    ||| connected(pairs_of(routes), source, d.terminal)
}

proof fn lemma_pairs_unlaid(routes: Seq<RouteView>, i: int, n: usize)
    requires
        0 <= i < routes.len(),
        !routes[i].laid(),
    ensures
        pairs_of(routes.update(i, RouteView { next: n, ..routes[i] })) == pairs_of(routes),
    decreases routes.len(),
{
    let on = routes.update(i, RouteView { next: n, ..routes[i] });
    if i < routes.len() - 1 {
        lemma_pairs_unlaid(routes.drop_last(), i, n);
        assert(on.drop_last() =~= routes.drop_last().update(
            i,
            RouteView { next: n, ..routes.drop_last()[i] },
        ));
    } else {
        assert(on.drop_last() =~= routes.drop_last());
    }
}

/// Which destination a route tries next: the first of those left that it does not pass over, and none
/// where it passes over them all. All that changes is how far it has come in its list.
pub proof fn law_next_destination(routes: Seq<RouteView>, i: int)
    requires
        0 <= i < routes.len(),
        routes[i].dests.len() <= usize::MAX,
        !(routes[i].routed && routes[i].points.len() > 1),
    ensures
        ({
            let (on, found) = advanced(routes, i);
            let r = routes[i];
            let n = on[i].next;
            &&& on == routes.update(i, RouteView { next: n, ..r })
            &&& found matches Some(d) ==> {
                &&& r.next < n <= r.dests.len() && d == r.dests[n - 1]
                &&& !passed_over(routes, r.source, d)
                &&& forall|j: int|
                    r.next <= j < n - 1 ==> passed_over(routes, r.source, #[trigger] r.dests[j])
            }
            &&& found is None ==> {
                &&& n >= r.dests.len() && n >= r.next
                &&& forall|j: int|
                    r.next <= j < r.dests.len() ==> passed_over(
                        routes,
                        r.source,
                        #[trigger] r.dests[j],
                    )
            }
        }),
    decreases routes[i].dests.len() - routes[i].next,
{
    let r = routes[i];
    if r.next < r.dests.len() {
        let d = r.dests[r.next as int];
        let m = (r.next + 1) as usize;
        let step = routes.update(i, RouteView { next: m, ..r });
        lemma_pairs_unlaid(routes, i, m);
        assert(taken(step, d) <==> !d.cover && exists|k: int|
            0 <= k < routes.len() && ends_at(#[trigger] routes[k], d.terminal)) by {
            if taken(step, d) {
                let k = choose|k: int|
                    0 <= k < step.len() && (#[trigger] step[k]).laid() && (step[k].reached() matches Some(
                        x,
                    ) && x.terminal == d.terminal);
                assert(step[k] == routes[k]);
                assert(ends_at(routes[k], d.terminal));
            }
            if exists|k: int| 0 <= k < routes.len() && ends_at(#[trigger] routes[k], d.terminal) {
                let k = choose|k: int|
                    0 <= k < routes.len() && ends_at(#[trigger] routes[k], d.terminal);
                assert(step[k] == routes[k]);
                assert(step[k].laid());
            }
        }
        if passed_over(routes, r.source, d) {
            law_next_destination(step, i);
            let (on, found) = advanced(step, i);
            assert(advanced(routes, i) == (on, found));
            assert(on =~= routes.update(i, RouteView { next: on[i].next, ..r }));
            assert forall|x: DestView| #[trigger] passed_over(step, r.source, x) == passed_over(
                routes,
                r.source,
                x,
            ) by {
                lemma_ends_alike(routes, step, i, x.terminal);
            }
        }
    } else {
        assert(routes =~= routes.update(i, RouteView { next: r.next, ..r }));
    }
}

proof fn lemma_ends_alike(a: Seq<RouteView>, b: Seq<RouteView>, i: int, t: Seq<char>)
    requires
        a.len() == b.len(),
        0 <= i < a.len(),
        !a[i].laid() && !b[i].laid(),
        forall|k: int| 0 <= k < a.len() && k != i ==> #[trigger] a[k] == b[k],
    ensures
        (exists|k: int| 0 <= k < a.len() && ends_at(#[trigger] a[k], t)) == (exists|k: int|
            0 <= k < b.len() && ends_at(#[trigger] b[k], t)),
{
    if exists|k: int| 0 <= k < a.len() && ends_at(#[trigger] a[k], t) {
        let k = choose|k: int| 0 <= k < a.len() && ends_at(#[trigger] a[k], t);
        assert(ends_at(b[k], t));
    }
    if exists|k: int| 0 <= k < b.len() && ends_at(#[trigger] b[k], t) {
        let k = choose|k: int| 0 <= k < b.len() && ends_at(#[trigger] b[k], t);
        assert(ends_at(a[k], t));
    }
}

/// The terminal of a name is the first that has it.
pub proof fn law_terminal_of(access: Seq<TerminalView>, name: Seq<char>)
    ensures
        match terminal_of(access, name) {
            Some(t) => exists|k: int|
                0 <= k < access.len() && #[trigger] access[k] == t && t.name == name && forall|j: int|
                    0 <= j < k ==> (#[trigger] access[j]).name != name,
            None => forall|j: int| 0 <= j < access.len() ==> (#[trigger] access[j]).name != name,
        },
    decreases access.len(),
{
    if access.len() > 0 {
        if access[0].name == name {
            assert(access[0] == access[0]);
        } else {
            let rest = access.drop_first();
            law_terminal_of(rest, name);
            match terminal_of(rest, name) {
                Some(t) => {
                    let k = choose|k: int|
                        0 <= k < rest.len() && #[trigger] rest[k] == t && t.name == name && forall|
                            j: int,
                        |
                            0 <= j < k ==> (#[trigger] rest[j]).name != name;
                    assert(access[k + 1] == t);
                    assert forall|j: int| 0 <= j < k + 1 implies (#[trigger] access[j]).name
                        != name by {
                        if j > 0 {
                            assert(rest[j - 1].name != name);
                        }
                    }
                },
                None => {
                    assert forall|j: int| 0 <= j < access.len() implies (#[trigger] access[j]).name
                        != name by {
                        if j > 0 {
                            assert(rest[j - 1].name != name);
                        }
                    }
                },
            }
        }
    }
}

/// The entry of the log says that this pairing of targets was tried, and how long a path it gave.
pub open spec fn logs(
    entry: LogView,
    src: TerminalView,
    dst: TerminalView,
    pair: (usize, usize),
    n: int,
) -> bool {
    &&& entry.0 == src.name && entry.1 == dst.name
    &&& entry.2 == src.targets[pair.0 as int].0 && entry.3 == dst.targets[pair.1 as int].0
    &&& entry.4 == n
}

/// The pairings are tried in turn, and the first that gives a path is the last to be tried: each before it
/// is logged without a path, and it is logged with its own. Where none gives one, all are logged.
pub proof fn law_first_path_wins(
    plan: Plan,
    web: Web,
    routes: Seq<RouteView>,
    src: TerminalView,
    dst: TerminalView,
    pairs: Seq<(usize, usize)>,
)
    requires
        plan.tries(web, routes, src, dst, pairs).path.len() <= usize::MAX,
    ensures
        ({
            let t = plan.tries(web, routes, src, dst, pairs);
            let n = t.log.len();
            &&& n <= pairs.len()
            &&& t.path.len() == 0 ==> n == pairs.len()
            &&& t.path.len() > 0 ==> n > 0
            &&& forall|k: int|
                0 <= k < n ==> logs(
                    #[trigger] t.log[k],
                    src,
                    dst,
                    pairs[k],
                    if k == n - 1 {
                        t.path.len() as int
                    } else {
                        0
                    },
                )
        }),
    decreases pairs.len(),
{
    if pairs.len() > 0 {
        let (s, d) = (src.targets[pairs[0].0 as int], dst.targets[pairs[0].1 as int]);
        let t = plan.attempt(web, routes, s, d);
        if t.path.len() == 0 {
            let rest = pairs.drop_first();
            law_first_path_wins(plan, t.web, routes, src, dst, rest);
            let later = plan.tries(t.web, routes, src, dst, rest);
            let all = plan.tries(web, routes, src, dst, pairs);
            assert forall|k: int| 0 <= k < all.log.len() implies logs(
                #[trigger] all.log[k],
                src,
                dst,
                pairs[k],
                if k == all.log.len() - 1 {
                    all.path.len() as int
                } else {
                    0
                },
            ) by {
                if k > 0 {
                    assert(all.log[k] == later.log[k - 1]);
                    assert(pairs[k] == rest[k - 1]);
                }
            }
        }
    }
}

/// What serving the first route of the queue does. No other route changes. It is off the queue; where it is
/// now routed it has a path and a record, where it is not it is as it was but for how far it has come. It
/// is queued again, at the end, exactly where an attempt was made in vain and it has a destination left.
/// What was logged stays logged.
pub proof fn law_serving_one(plan: Plan, run: Run)
    requires
        run.queue.len() > 0,
        run.queue[0] < run.routes.len(),
        run.committed.len() == run.routes.len(),
        run.routes[run.queue[0] as int].dests.len() <= usize::MAX,
        !run.routes[run.queue[0] as int].routed,
        run.attempts < usize::MAX,
    ensures
        ({
            let next = plan.served(run);
            let i = run.queue[0] as int;
            let (was, now) = (run.routes[i], next.routes[i]);
            let rest = run.queue.drop_first();
            &&& next.routes.len() == run.routes.len()
            &&& forall|k: int|
                0 <= k < run.routes.len() && k != i ==> #[trigger] next.routes[k] == run.routes[k]
                    && next.committed[k] == run.committed[k]
            &&& !now.pending && now.source == was.source && now.dests == was.dests && now.priority
                == was.priority && now.centre == was.centre && now.id == was.id
            &&& now.routed ==> now.points.len() > 0 && next.committed[i] is Some
                && next.attempts == run.attempts + 1 && next.queue == rest
            &&& !now.routed ==> now.points == was.points && next.committed[i] == run.committed[i]
            &&& !now.routed ==> next.queue == if next.attempts > run.attempts && now.next
                < now.dests.len() {
                rest.push(i as usize)
            } else {
                rest
            }
            &&& run.attempts <= next.attempts <= run.attempts + 1
            &&& next.attempts == run.attempts ==> next.web == run.web && next.log == run.log
            &&& run.log.is_prefix_of(next.log)
        }),
{
    let i = run.queue[0] as int;
    let r = run.routes[i];
    let off = run.routes.update(i, RouteView { pending: false, ..r });
    law_next_destination(off, i);
}

/// A run starts with every route queued that is not yet routed, none committed and nothing tried.
pub proof fn law_run_starts_afresh(web: Web, routes: Seq<RouteView>, t: usize)
    requires
        routes.len() <= usize::MAX,
    ensures
        ({
            let run = fresh_run(web, routes);
            &&& run.queue.contains(t) <==> t < routes.len() && !routes[t as int].routed
            &&& run.routes == routes && run.web == web && run.log.len() == 0 && run.attempts == 0
            &&& t < routes.len() ==> run.committed[t as int] is None
        }),
{
    lemma_those(routes.len(), |i: usize| !routes[i as int].routed);
}

/// What a run reports as failed are the sources of the routes that are not routed, each in its turn.
pub proof fn law_unrouted(a: Seq<RouteView>, b: Seq<RouteView>, r: RouteView)
    ensures
        unrouted(a + b) == unrouted(a) + unrouted(b),
        r.routed ==> unrouted(seq![r]).len() == 0,
        !r.routed ==> unrouted(seq![r]) == seq![r.source],
    decreases b.len(),
{
    let one = seq![r];
    assert(one.drop_last() =~= Seq::<RouteView>::empty());
    assert(unrouted(one.drop_last()) =~= Seq::<Seq<char>>::empty());
    assert(unrouted(one) =~= if r.routed {
        Seq::<Seq<char>>::empty()
    } else {
        seq![r.source]
    });
    if b.len() == 0 {
        assert(a + b =~= a);
        assert(unrouted(a) + unrouted(b) =~= unrouted(a));
    } else {
        law_unrouted(a, b.drop_last(), r);
        assert((a + b).drop_last() =~= a + b.drop_last());
        assert(unrouted(a + b) =~= unrouted(a) + unrouted(b));
    }
}

/// The paths that are laid are those of the routed routes, each in its turn.
pub proof fn law_laid_paths(a: Seq<RouteView>, b: Seq<RouteView>, r: RouteView)
    ensures
        tracks(a + b) == tracks(a) + tracks(b),
        r.routed ==> tracks(seq![r]) == seq![r.points],
        !r.routed ==> tracks(seq![r]).len() == 0,
    decreases b.len(),
{
    let one = seq![r];
    assert(one.drop_last() =~= Seq::<RouteView>::empty());
    assert(tracks(one.drop_last()) =~= Seq::<Seq<Point>>::empty());
    assert(tracks(one) =~= if r.routed {
        seq![r.points]
    } else {
        Seq::<Seq<Point>>::empty()
    });
    if b.len() == 0 {
        assert(a + b =~= a);
        assert(tracks(a) + tracks(b) =~= tracks(a));
    } else {
        law_laid_paths(a, b.drop_last(), r);
        assert((a + b).drop_last() =~= a + b.drop_last());
        assert(tracks(a + b) =~= tracks(a) + tracks(b));
    }
}

} // verus!
