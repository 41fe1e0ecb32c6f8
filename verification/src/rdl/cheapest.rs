//! The route found costs no more than any other.

use crate::geom::{pt, Point};
use crate::rdl::cost::{
    law_horizontal_costs_one_more, lemma_length, lemma_length_exists, lemma_length_i32,
    lemma_weight_unsigned, length, square_length, weight,
};
use crate::rdl::graph::{leads_to, lemma_linked, lemma_slot, slot, web_of, weight_to, Links, Web};
use crate::rdl::grid::{crossings, Grid};
use crate::rdl::heap::{
    law_first_is_least, law_pop_takes_first, law_push_adds, law_stays_ordered, ordered, popped,
};
use crate::rdl::price::{lemma_either_way, lemma_fresh};
use crate::rdl::restore::lemma_weight_leads;
use crate::rdl::search::{
    bounded, explored, found, holds, is_trail, known, law_reachable_is_found, law_search_ends,
    lemma_after, lemma_after_explored, lemma_end, lemma_expanded, lemma_expanded_explored,
    lemma_known_range, lemma_one_trail, lemma_popped, lemma_popped_explored, lemma_trail, points_of,
    roomy, sat, sound, trail_to, walks, Quest, Search, FAR,
};
use crate::single::{lemma_zero_times, Single};
use vstd::prelude::*;

verus! {

/// No two links between the same vertices differ in what they cost.
pub open spec fn plain(web: Web) -> bool {
    forall|a: int, k: int|
        0 <= a < web.adj.len() && 0 <= k < web.adj[a].len() ==> weight_to(
            web.adj[a],
            (#[trigger] web.adj[a][k]).0,
        ) == Some(web.adj[a][k].1)
}

/// Every edge is horizontal or vertical and costs no less than its length.
pub open spec fn squared_off(web: Web) -> bool {
    forall|a: int, k: int|
        0 <= a < web.adj.len() && 0 <= k < web.adj[a].len() ==> {
            let (p, q) = (web.points[a], web.points[(#[trigger] web.adj[a][k]).0 as int]);
            (p.0 == q.0 || p.1 == q.1) && length(pt(p), pt(q)) <= web.adj[a][k].1
        }
}

/// What the edges of a walk cost together.
pub open spec fn walk_cost(web: Web, walk: Seq<usize>) -> int
    decreases walk.len(),
{
    if walk.len() <= 1 {
        0
    } else {
        walk_cost(web, walk.drop_last()) + web.cost(walk[walk.len() - 2], walk.last())->Some_0
    }
}

/// A search whose turns are free, on a graph whose edges cost the same from either end, run along the
/// axes and cost no less than their length, and with room for every cost and estimate.
pub open spec fn unhindered(q: Quest, most: int) -> bool {
    &&& q.wf()
    &&& q.web.even() && plain(q.web) && squared_off(q.web)
    &&& q.penalty.is_zero()
    &&& roomy(q.web, most)
    &&& q.web.points.len() * most + 0x2_0000_0000 <= FAR
}

/// The distance left to the goal.
spec fn left(q: Quest, v: int) -> int {
    length(pt(q.web.points[q.target as int]), pt(q.web.points[v]))
}

/// A step of `s` along an axis takes the whole distance no further than `s`.
proof fn lemma_axis_step(x: int, y: int, s: int, l: int, r: int)
    requires
        l >= 0,
        s == l || s == -l,
        r >= 0,
        x * x + y * y < (r + 1) * (r + 1),
    ensures
        (x + s) * (x + s) + y * y < (r + l + 1) * (r + l + 1),
{
    assert(y * y >= 0) by (nonlinear_arith);
    assert(-r <= x <= r) by (nonlinear_arith)
        requires
            x * x < (r + 1) * (r + 1),
            r >= 0,
    ;
    assert(x * s <= r * l) by (nonlinear_arith)
        requires
            s == l || s == -l,
            l >= 0,
            -r <= x <= r,
    ;
    assert(s * s == l * l) by (nonlinear_arith)
        requires
            s == l || s == -l,
    ;
    assert((x + s) * (x + s) == x * x + 2 * (x * s) + s * s) by (nonlinear_arith);
    assert((r + l + 1) * (r + l + 1) == (r + 1) * (r + 1) + 2 * (r * l) + 2 * l + l * l)
        by (nonlinear_arith);
}

/// Between points on one axis, the distances to a third differ by no more than the one between them.
proof fn lemma_axis(g: (int, int), a: (int, int), b: (int, int))
    requires
        a.0 == b.0 || a.1 == b.1,
    ensures
        length(g, a) <= length(g, b) + length(a, b),
{
    lemma_length_exists(g, a);
    lemma_length_exists(g, b);
    let (dx, dy) = (b.0 - a.0, b.1 - a.1);
    let s = if a.1 == b.1 {
        dx
    } else {
        dy
    };
    let l = if s < 0 {
        -s
    } else {
        s
    };
    assert((a.0 - b.0) * (a.0 - b.0) + (a.1 - b.1) * (a.1 - b.1) == l * l) by (nonlinear_arith)
        requires
            (a.1 == b.1 && (l == a.0 - b.0 || l == b.0 - a.0)) || (a.0 == b.0 && (l == a.1 - b.1
                || l == b.1 - a.1)),
    ;
    assert(l * l < (l + 1) * (l + 1)) by (nonlinear_arith)
        requires
            l >= 0,
    ;
    lemma_length(a, b, l);
    let r = length(g, b);
    let (x, y) = (g.0 - b.0, g.1 - b.1);
    if a.1 == b.1 {
        lemma_axis_step(x, y, s, l, r);
    } else {
        assert(y * y + x * x == x * x + y * y);
        lemma_axis_step(y, x, s, l, r);
    }
    let h = length(g, a);
    assert(square_length(g, a) < (r + l + 1) * (r + l + 1));
    assert(h <= r + l) by (nonlinear_arith)
        requires
            h * h < (r + l + 1) * (r + l + 1),
            h >= 0,
            r + l >= 0,
    ;
}

/// Along an edge, the distance left changes by no more than the edge costs.
proof fn lemma_consistent(q: Quest, most: int, a: int, k: int)
    requires
        unhindered(q, most),
        0 <= a < q.web.points.len(),
        0 <= k < q.web.adj[a].len(),
    ensures
        ({
            let (b, w) = q.web.adj[a][k];
            &&& b < q.web.points.len()
            &&& 0 <= w <= most
            &&& left(q, a) <= left(q, b as int) + w
            &&& left(q, b as int) <= left(q, a) + w
        }),
{
    let (b, w) = q.web.adj[a][k];
    let (g, p, r) = (
        pt(q.web.points[q.target as int]),
        pt(q.web.points[a]),
        pt(q.web.points[b as int]),
    );
    lemma_axis(g, p, r);
    lemma_axis(g, r, p);
    lemma_either_way(p, r, Single::unity(), 0);
}

/// With free turns, the estimate is the distance left.
proof fn lemma_estimate(q: Quest, prev: Seq<usize>, v: usize)
    requires
        q.wf(),
        q.penalty.is_zero(),
        v < q.web.points.len(),
    ensures
        q.estimate(prev, v) == left(q, v as int),
        0 <= left(q, v as int) < 0x2_0000_0000,
{
    lemma_length_i32(q.web.points[q.target as int], q.web.points[v as int]);
    let c = prev[v as int];
    let b = prev[c as int];
    let (pc, pb) = (q.web.points[c as int], q.web.points[b as int]);
    lemma_length_i32(pb, pc);
    lemma_zero_times(q.penalty, length(pt(pb), pt(pc)));
}

/// What a vertex costs to reach is on the queue, at no more than that and what is left.
spec fn fresh(q: Quest, s: Search, x: int) -> bool {
    exists|k: int|
        0 <= k < s.heap.len() && (#[trigger] s.heap[k]).1 == x && s.heap[k].0 <= s.dist[x] + left(
            q,
            x,
        )
}

/// No way through `x` and along one of its first `m` edges is shorter than what is known.
spec fn settled(q: Quest, s: Search, x: int, m: int) -> bool {
    forall|k: int|
        0 <= k < m ==> s.dist[(#[trigger] q.web.adj[x][k]).0 as int] <= s.dist[x]
            + q.web.adj[x][k].1
}

/// Each vertex with a known cost, but for `u`, is on the queue at that cost or settled.
spec fn sorted_out(q: Quest, s: Search, u: int) -> bool {
    forall|x: int| #![trigger s.dist[x]]
        0 <= x < q.web.points.len() && x != u && s.dist[x] < FAR ==> fresh(q, s, x) || settled(
            q,
            s,
            x,
            q.web.adj[x].len() as int,
        )
}

/// Nothing is queued below what it costs to reach and what is left from there.
spec fn keyed(q: Quest, s: Search) -> bool {
    forall|k: int| #![trigger s.heap[k]]
        0 <= k < s.heap.len() ==> s.heap[k].0 >= s.dist[s.heap[k].1 as int] + left(
            q,
            s.heap[k].1 as int,
        )
}

/// Nothing is queued below `floor`.
spec fn above(s: Search, floor: int) -> bool {
    forall|k: int| 0 <= k < s.heap.len() ==> (#[trigger] s.heap[k]).0 >= floor
}

/// Each known cost but the source's covers that of the predecessor and the edge from it.
spec fn backed(q: Quest, s: Search) -> bool {
    forall|v: int| #![trigger s.prev[v]]
        0 <= v < q.web.points.len() && v != q.source && s.dist[v] < FAR ==> {
            let c = q.web.cost(s.prev[v], v as usize);
            &&& s.prev[v] < q.web.points.len()
            &&& c is Some
            &&& s.dist[s.prev[v] as int] + c->Some_0 <= s.dist[v]
        }
}

/// A link there is has its cost.
proof fn lemma_weight_link(links: Links, b: usize) -> (k: int)
    requires
        weight_to(links, b) is Some,
    ensures
        0 <= k < links.len(),
        links[k] == (b, weight_to(links, b)->Some_0),
    decreases links.len(),
{
    if links[0].0 == b {
        0
    } else {
        let j = lemma_weight_link(links.drop_first(), b);
        j + 1
    }
}

/// Trying an edge from a vertex that stands first in the queue never shortens the way to that vertex.
proof fn lemma_no_way_back(q: Quest, s: Search, u: usize, m: int, most: int)
    requires
        unhindered(q, most),
        sound(q, s),
        u < q.web.points.len(),
        s.dist[u as int] < FAR,
        0 <= m < q.web.adj[u as int].len(),
        sorted_out(q, s, u as int),
        above(s, s.dist[u as int] + left(q, u as int)),
    ensures
        ({
            let (v, w) = q.web.adj[u as int][m];
            s.dist[u as int] <= s.dist[v as int] + w
        }),
{
    let (v, w) = q.web.adj[u as int][m];
    lemma_consistent(q, most, u as int, m);
    if s.dist[v as int] + w < s.dist[u as int] {
        if fresh(q, s, v as int) {
            let k = choose|k: int|
                0 <= k < s.heap.len() && (#[trigger] s.heap[k]).1 == v as int && s.heap[k].0
                    <= s.dist[v as int] + left(q, v as int);
            assert(s.heap[k].0 >= s.dist[u as int] + left(q, u as int));
        } else {
            assert(settled(q, s, v as int, q.web.adj[v as int].len() as int));
            assert(q.web.cost(u, v) == Some(w));
            assert(q.web.cost(v, u) == Some(w));
            let k = lemma_weight_link(q.web.adj[v as int], u);
            assert(q.web.adj[v as int][k] == (u, w));
        }
    }
}

proof fn lemma_relaxed_cheap(q: Quest, s: Search, u: usize, m: int, most: int)
    requires
        unhindered(q, most),
        sound(q, s),
        bounded(s, most),
        u < q.web.points.len(),
        s.dist[u as int] < FAR,
        0 <= m < q.web.adj[u as int].len(),
        sorted_out(q, s, u as int),
        settled(q, s, u as int, m),
        keyed(q, s),
        backed(q, s),
        ordered(s.heap),
        above(s, s.dist[u as int] + left(q, u as int)),
    ensures
        ({
            let (v, w) = q.web.adj[u as int][m];
            let t = q.relaxed(s, u, v, w);
            &&& t.dist[u as int] == s.dist[u as int]
            &&& sorted_out(q, t, u as int)
            &&& settled(q, t, u as int, m + 1)
            &&& keyed(q, t)
            &&& backed(q, t)
            &&& ordered(t.heap)
            &&& above(t, s.dist[u as int] + left(q, u as int))
        }),
{
    let (v, w) = q.web.adj[u as int][m];
    let t = q.relaxed(s, u, v, w);
    let n = q.web.points.len() as int;
    let (stamp, clock) = choose|stamp: Seq<int>, clock: int| holds(q, s, stamp, clock);
    let (du, dv) = (s.dist[u as int], s.dist[v as int]);
    lemma_consistent(q, most, u as int, m);
    lemma_no_way_back(q, s, u, m, most);
    lemma_reach(q, s, u, most);
    assert(du >= 0 && dv >= 0);
    if sat(du + w) < dv {
        let d = (du + w) as i64;
        assert(d == du + w && d < FAR);
        assert(v != u);
        assert(t.dist =~= s.dist.update(v as int, d));
        assert(t.prev =~= s.prev.update(v as int, u));
        lemma_estimate(q, t.prev, v);
        let f = sat(d + q.estimate(t.prev, v));
        assert(f == d + left(q, v as int));
        law_push_adds(s.heap, (f, v));
        law_stays_ordered(s.heap, (f, v));
        assert(v != q.source) by {
            assert(s.dist[q.source as int] == 0);
        }
        assert forall|k: int| #![trigger t.heap[k]] 0 <= k < t.heap.len() implies t.heap[k].0
            >= t.dist[t.heap[k].1 as int] + left(q, t.heap[k].1 as int) && t.heap[k].0 >= du + left(
            q,
            u as int,
        ) && t.heap[k].1 < n by {
            assert(t.heap.contains(t.heap[k]));
            if s.heap.contains(t.heap[k]) {
                let j = choose|j: int| 0 <= j < s.heap.len() && s.heap[j] == t.heap[k];
                assert(s.heap[j].1 < n);
            }
        }
        assert(fresh(q, t, v as int)) by {
            assert(t.heap.contains((f, v)));
            let j = choose|j: int| 0 <= j < t.heap.len() && t.heap[j] == (f, v);
            assert(t.heap[j].1 == v);
        }
        assert forall|x: int| #![trigger t.dist[x]] 0 <= x < n && x != u && t.dist[x]
            < FAR implies fresh(q, t, x) || settled(q, t, x, q.web.adj[x].len() as int) by {
            if x != v {
                assert(s.dist[x] == t.dist[x]);
                if fresh(q, s, x) {
                    let k = choose|k: int|
                        0 <= k < s.heap.len() && (#[trigger] s.heap[k]).1 == x && s.heap[k].0
                            <= s.dist[x] + left(q, x);
                    assert(s.heap.contains(s.heap[k]));
                    assert(t.heap.contains(s.heap[k]));
                    let j = choose|j: int| 0 <= j < t.heap.len() && t.heap[j] == s.heap[k];
                    assert(t.heap[j].1 == x);
                } else {
                    assert(settled(q, s, x, q.web.adj[x].len() as int));
                    lemma_settled_less(q, s, t, x, q.web.adj[x].len() as int);
                }
            }
        }
        lemma_settled_less(q, s, t, u as int, m);
        assert(q.web.cost(u, v) == Some(w));
        assert forall|x: int| #![trigger t.prev[x]] 0 <= x < n && x != q.source && t.dist[x]
            < FAR implies ({
            let c = q.web.cost(t.prev[x], x as usize);
            &&& t.prev[x] < n
            &&& c is Some
            &&& t.dist[t.prev[x] as int] + c->Some_0 <= t.dist[x]
        }) by {
            if x != v {
                assert(s.prev[x] == t.prev[x]);
            }
        }
    } else {
        assert(t == s);
    }
}

/// A known cost leaves room for one more edge and an estimate.
proof fn lemma_reach(q: Quest, s: Search, u: usize, most: int)
    requires
        unhindered(q, most),
        sound(q, s),
        bounded(s, most),
        u < q.web.points.len(),
        s.dist[u as int] < FAR,
    ensures
        s.dist[u as int] + most + 0x2_0000_0000 <= FAR,
{
    let (stamp, clock) = choose|stamp: Seq<int>, clock: int| holds(q, s, stamp, clock);
    lemma_known_range(s.dist);
    let c = known(s.dist);
    let n = q.web.points.len() as int;
    assert(s.dist[u as int] <= (c - 1) * most);
    assert((c - 1) * most + most <= n * most) by (nonlinear_arith)
        requires
            c <= n,
            most >= 0,
    ;
}

/// What is settled stays so while other vertices come nearer.
proof fn lemma_settled_less(q: Quest, s: Search, t: Search, x: int, m: int)
    requires
        q.wf(),
        0 <= x < q.web.points.len(),
        0 <= m <= q.web.adj[x].len(),
        settled(q, s, x, m),
        t.dist[x] == s.dist[x],
        forall|y: int| 0 <= y < q.web.points.len() ==> t.dist[y] <= #[trigger] s.dist[y],
    ensures
        settled(q, t, x, m),
{
    assert forall|k: int| 0 <= k < m implies t.dist[(#[trigger] q.web.adj[x][k]).0 as int]
        <= t.dist[x] + q.web.adj[x][k].1 by {
        let y = q.web.adj[x][k].0 as int;
        assert(y < q.web.points.len());
        assert(t.dist[y] <= s.dist[y]);
    }
}

/// What holds while `u`, which stood first in the queue, is expanded, with its first `m` edges tried.
#[verifier::opaque]
spec fn orderly(q: Quest, s: Search, u: usize, m: int) -> bool {
    &&& sorted_out(q, s, u as int)
    &&& settled(q, s, u as int, m)
    &&& keyed(q, s)
    &&& backed(q, s)
    &&& ordered(s.heap)
    &&& above(s, s.dist[u as int] + left(q, u as int))
}

proof fn lemma_expanded_cheap(q: Quest, s: Search, u: usize, m: int, most: int)
    requires
        unhindered(q, most),
        sound(q, s),
        bounded(s, most),
        explored(q, s, u as int),
        u < q.web.points.len(),
        s.dist[u as int] < FAR,
        0 <= m <= q.web.adj[u as int].len(),
        orderly(q, s, u, 0),
    ensures
        orderly(q, q.expanded(s, u, q.web.adj[u as int].take(m)), u, m),
    decreases m,
{
    let links = q.web.adj[u as int];
    if m > 0 {
        lemma_expanded_cheap(q, s, u, m - 1, most);
        assert(links.take(m).drop_last() =~= links.take(m - 1));
        assert(links.take(m).last() == links[m - 1]);
        lemma_expanded(q, s, u, links.take(m - 1));
        lemma_expanded_explored(q, s, u, m - 1, most);
        let before = q.expanded(s, u, links.take(m - 1));
        assert(orderly(q, q.relaxed(before, u, links[m - 1].0, links[m - 1].1), u, m)) by {
            reveal(orderly);
            lemma_relaxed_cheap(q, before, u, m - 1, most);
        }
    }
}

proof fn lemma_after_cheap(q: Quest, n: nat, most: int)
    requires
        unhindered(q, most),
    ensures
        sorted_out(q, q.after(n), -1),
        keyed(q, q.after(n)),
        backed(q, q.after(n)),
        ordered(q.after(n).heap),
    decreases n,
{
    if n == 0 {
        let s = q.start();
        let entry = (q.estimate(s.prev, q.source), q.source);
        lemma_estimate(q, s.prev, q.source);
        law_push_adds(Seq::empty(), entry);
        law_stays_ordered(Seq::empty(), entry);
        assert(s.heap.contains(entry));
        let j = choose|j: int| 0 <= j < s.heap.len() && s.heap[j] == entry;
        assert(s.heap[j].1 == q.source);
        assert(fresh(q, s, q.source as int));
        assert forall|k: int| #![trigger s.heap[k]] 0 <= k < s.heap.len() implies s.heap[k].0
            >= s.dist[s.heap[k].1 as int] + left(q, s.heap[k].1 as int) by {
            assert(s.heap.contains(s.heap[k]));
        }
    } else {
        let p = (n - 1) as nat;
        let s = q.after(p);
        lemma_after_cheap(q, p, most);
        lemma_after(q, p);
        if !q.over(s) {
            lemma_after_explored(q, p, most);
            lemma_step_cheap(q, s, most);
        }
    }
}

/// Taking the first entry off the queue, to expand its vertex.
proof fn lemma_taken(q: Quest, s: Search)
    requires
        q.wf(),
        sound(q, s),
        !q.over(s),
        sorted_out(q, s, -1),
        keyed(q, s),
        backed(q, s),
        ordered(s.heap),
    ensures
        orderly(
            q,
            Search { dist: s.dist, prev: s.prev, heap: popped(s.heap) },
            s.heap[0].1,
            0,
        ),
{
    let u = s.heap[0].1;
    let next = Search { dist: s.dist, prev: s.prev, heap: popped(s.heap) };
    lemma_popped(q, s);
    law_pop_takes_first(s.heap);
    law_stays_ordered(s.heap, s.heap[0]);
    assert forall|k: int| #![trigger next.heap[k]] 0 <= k < next.heap.len() implies next.heap[k].0
        >= next.dist[next.heap[k].1 as int] + left(q, next.heap[k].1 as int) && next.heap[k].0
        >= next.dist[u as int] + left(q, u as int) by {
        assert(next.heap.contains(next.heap[k]));
        let j = choose|j: int| 0 <= j < s.heap.len() && s.heap[j] == next.heap[k];
        law_first_is_least(s.heap, j);
        assert(s.heap[j].0 >= s.dist[s.heap[j].1 as int] + left(q, s.heap[j].1 as int));
        assert(s.heap[0].0 >= s.dist[u as int] + left(q, u as int));
    }
    assert forall|x: int| #![trigger next.dist[x]] 0 <= x < q.web.points.len() && x != u
        && next.dist[x] < FAR implies fresh(q, next, x) || settled(
        q,
        next,
        x,
        q.web.adj[x].len() as int,
    ) by {
        assert(s.dist[x] < FAR);
        if fresh(q, s, x) {
            let k = choose|k: int|
                0 <= k < s.heap.len() && (#[trigger] s.heap[k]).1 == x && s.heap[k].0 <= s.dist[x]
                    + left(q, x);
            assert(next.heap.contains(s.heap[k]));
            let j = choose|j: int| 0 <= j < next.heap.len() && next.heap[j] == s.heap[k];
            assert(next.heap[j].1 == x);
        } else {
            lemma_settled_less(q, s, next, x, q.web.adj[x].len() as int);
        }
    }
    assert forall|x: int| #![trigger next.prev[x]] 0 <= x < q.web.points.len() && x != q.source
        && next.dist[x] < FAR implies ({
        let c = q.web.cost(next.prev[x], x as usize);
        &&& next.prev[x] < q.web.points.len()
        &&& c is Some
        &&& next.dist[next.prev[x] as int] + c->Some_0 <= next.dist[x]
    }) by {
        assert(s.prev[x] == next.prev[x]);
    }
    reveal(orderly);
}

proof fn lemma_step_cheap(q: Quest, s: Search, most: int)
    requires
        unhindered(q, most),
        sound(q, s),
        bounded(s, most),
        explored(q, s, -1),
        !q.over(s),
        sorted_out(q, s, -1),
        keyed(q, s),
        backed(q, s),
        ordered(s.heap),
    ensures
        sorted_out(q, q.step(s), -1),
        keyed(q, q.step(s)),
        backed(q, q.step(s)),
        ordered(q.step(s).heap),
{
    let u = s.heap[0].1;
    let next = Search { dist: s.dist, prev: s.prev, heap: popped(s.heap) };
    lemma_popped(q, s);
    lemma_popped_explored(q, s);
    lemma_taken(q, s);
    let links = q.web.adj[u as int];
    lemma_expanded_cheap(q, next, u, links.len() as int, most);
    assert(links.take(links.len() as int) =~= links);
    lemma_expanded_whole(q, q.step(s), u);
}

/// A vertex whose edges have all been tried is settled.
proof fn lemma_expanded_whole(q: Quest, s: Search, u: usize)
    requires
        u < q.web.points.len(),
        orderly(q, s, u, q.web.adj[u as int].len() as int),
    ensures
        sorted_out(q, s, -1),
        keyed(q, s),
        backed(q, s),
        ordered(s.heap),
{
    reveal(orderly);
}

/// The first so many vertices of a walk, and one more.
proof fn lemma_prefix_cost(web: Web, walk: Seq<usize>, k: int)
    requires
        1 <= k < walk.len(),
    ensures
        walk_cost(web, walk.take(k + 1)) == walk_cost(web, walk.take(k)) + web.cost(
            walk[k - 1],
            walk[k],
        )->Some_0,
{
    assert(walk.take(k + 1).drop_last() =~= walk.take(k));
}

/// The link that a walk takes at its `k`th step.
proof fn lemma_walk_link(q: Quest, most: int, walk: Seq<usize>, k: int) -> (j: int)
    requires
        unhindered(q, most),
        walks(q.web, q.source, q.target, walk),
        1 <= k < walk.len(),
    ensures
        walk[k - 1] < q.web.points.len(),
        walk[k] < q.web.points.len(),
        0 <= j < q.web.adj[walk[k - 1] as int].len(),
        q.web.adj[walk[k - 1] as int][j].0 == walk[k],
        q.web.cost(walk[k - 1], walk[k]) == Some(q.web.adj[walk[k - 1] as int][j].1),
{
    let a = walk[k - 1] as int;
    assert(walk[k - 1] < q.web.points.len());
    assert(leads_to(q.web.adj[walk[k - 1] as int], walk[k]));
    choose|j: int| 0 <= j < q.web.adj[a].len() && (#[trigger] q.web.adj[a][j]).0 == walk[k]
}

/// What is left of a walk costs no less than the distance left.
proof fn lemma_walk_rest(q: Quest, most: int, walk: Seq<usize>, k: int)
    requires
        unhindered(q, most),
        walks(q.web, q.source, q.target, walk),
        0 <= k < walk.len(),
    ensures
        walk_cost(q.web, walk.take(k + 1)) + left(q, walk[k] as int) <= walk_cost(q.web, walk),
    decreases walk.len() - k,
{
    if k == walk.len() - 1 {
        assert(walk.take(k + 1) =~= walk);
        let g = pt(q.web.points[q.target as int]);
        assert(0 <= 0 * 0 && square_length(g, g) == 0) by (nonlinear_arith)
            requires
                square_length(g, g) == (g.0 - g.0) * (g.0 - g.0) + (g.1 - g.1) * (g.1 - g.1),
        ;
        lemma_length(g, g, 0);
    } else {
        lemma_walk_rest(q, most, walk, k + 1);
        let j = lemma_walk_link(q, most, walk, k + 1);
        lemma_consistent(q, most, walk[k] as int, j);
        lemma_prefix_cost(q.web, walk, k + 1);
    }
}

/// With the goal first in the queue, a walk is known as far as it goes at no more than it costs, or
/// the goal costs no more than the whole of it.
proof fn lemma_walk_front(q: Quest, s: Search, most: int, walk: Seq<usize>, k: int)
    requires
        unhindered(q, most),
        sound(q, s),
        bounded(s, most),
        sorted_out(q, s, -1),
        keyed(q, s),
        ordered(s.heap),
        s.heap.len() > 0,
        s.heap[0].1 == q.target,
        walks(q.web, q.source, q.target, walk),
        0 <= k < walk.len(),
    ensures
        s.dist[walk[k] as int] < FAR && s.dist[walk[k] as int] <= walk_cost(
            q.web,
            walk.take(k + 1),
        ) || s.dist[q.target as int] <= walk_cost(q.web, walk),
    decreases k,
{
    let (stamp, clock) = choose|stamp: Seq<int>, clock: int| holds(q, s, stamp, clock);
    if k == 0 {
        assert(walk.take(1).len() == 1);
    } else {
        lemma_walk_front(q, s, most, walk, k - 1);
        let x = walk[k - 1] as int;
        let j = lemma_walk_link(q, most, walk, k);
        if s.dist[x] < FAR && s.dist[x] <= walk_cost(q.web, walk.take(k)) {
            if fresh(q, s, x) {
                let i = choose|i: int|
                    0 <= i < s.heap.len() && (#[trigger] s.heap[i]).1 == x && s.heap[i].0
                        <= s.dist[x] + left(q, x);
                law_first_is_least(s.heap, i);
                lemma_walk_rest(q, most, walk, k - 1);
                lemma_estimate(q, s.prev, q.target);
                assert(s.heap[0].0 >= s.dist[q.target as int] + left(q, q.target as int));
            } else {
                assert(settled(q, s, x, q.web.adj[x].len() as int));
                lemma_prefix_cost(q.web, walk, k);
                lemma_consistent(q, most, x, j);
                lemma_reach(q, s, x as usize, most);
                assert(s.dist[q.web.adj[x][j].0 as int] <= s.dist[x] + q.web.adj[x][j].1);
            }
        }
    }
}

/// A trail of predecessors is a walk that costs no more than its end does.
proof fn lemma_trail_cost(
    q: Quest,
    s: Search,
    stamp: Seq<int>,
    clock: int,
    v: usize,
    trail: Seq<usize>,
)
    requires
        q.wf(),
        holds(q, s, stamp, clock),
        backed(q, s),
        v < q.web.points.len(),
        s.dist[v as int] < FAR,
        is_trail(s.prev, v, trail),
    ensures
        walks(q.web, q.source, v, trail),
        walk_cost(q.web, trail) <= s.dist[v as int],
    decreases trail.len(),
{
    assert(s.prev[v as int] == s.prev[trail.last() as int]);
    if trail.len() == 1 {
        assert(v == q.source);
        assert(trail =~= seq![v]);
    } else {
        let last = trail.len() - 1;
        let p = trail[last - 1];
        assert(s.prev[trail[last] as int] == p && p != v);
        assert(v != q.source);
        let head = trail.drop_last();
        assert forall|k: int| 1 <= k < head.len() implies s.prev[(#[trigger] head[k]) as int]
            == head[k - 1] && head[k - 1] != head[k] by {
            assert(trail[k] == head[k]);
        }
        let c = q.web.cost(p, v);
        assert(c is Some && s.dist[p as int] + c->Some_0 <= s.dist[v as int]);
        let j = lemma_weight_link(q.web.adj[p as int], v);
        assert(q.web.adj[p as int][j].1 >= 0);
        assert(leads_to(q.web.adj[p as int], v));
        lemma_trail_cost(q, s, stamp, clock, p, head);
        assert forall|k: int| 0 <= k < trail.len() implies #[trigger] trail[k]
            < q.web.points.len() by {
            if k < head.len() {
                assert(head[k] == trail[k]);
            }
        }
        assert forall|k: int| 1 <= k < trail.len() implies leads_to(
            q.web.adj[trail[k - 1] as int],
            #[trigger] trail[k],
        ) by {
            if k < head.len() {
                assert(head[k] == trail[k]);
            }
        }
    }
}

/// With turns free, and every edge along an axis, the same from either end and no cheaper than it is
/// long, the path found is a walk between the two points that costs no more than any other.
pub proof fn law_found_is_cheapest(
    web: Web,
    start: Point,
    goal: Point,
    penalty: Single,
    most: int,
    walk: Seq<usize>,
)
    requires
        slot(web.points, start) is Some,
        slot(web.points, goal) is Some,
        unhindered(quest_of(web, start, goal, penalty), most),
        walks(
            web,
            quest_of(web, start, goal, penalty).source,
            quest_of(web, start, goal, penalty).target,
            walk,
        ),
    ensures
        ({
            let q = quest_of(web, start, goal, penalty);
            let trail = trail_to(q.end().prev, q.target);
            &&& found(web, start, goal, penalty) == points_of(web, trail)
            &&& walks(web, q.source, q.target, trail)
            &&& walk_cost(web, trail) <= walk_cost(web, walk)
        }),
{
    let q = quest_of(web, start, goal, penalty);
    lemma_slot(web.points, start);
    lemma_slot(web.points, goal);
    law_search_ends(q);
    law_reachable_is_found(q, walk, most);
    let n = choose|n: nat| q.over(#[trigger] q.after(n));
    lemma_end(q, n);
    lemma_after(q, n);
    lemma_after_explored(q, n, most);
    lemma_after_cheap(q, n, most);
    let s = q.end();
    let (stamp, clock) = choose|stamp: Seq<int>, clock: int| holds(q, s, stamp, clock);
    assert(s.heap[0].1 == q.target);
    assert(s.dist[q.target as int] < FAR);
    let trail = lemma_trail(q, s, stamp, clock, q.target);
    lemma_one_trail(s.prev, q.target, trail, trail_to(s.prev, q.target));
    lemma_trail_cost(q, s, stamp, clock, q.target, trail);
    let k = walk.len() - 1;
    lemma_walk_front(q, s, most, walk, k);
    assert(walk.take(k + 1) =~= walk);
}

/// The edges run along the axes, each between two points, and are short enough for single precision to
/// tell their costs apart.
pub open spec fn axis_edges(edges: Seq<(Point, Point)>) -> bool {
    forall|i: int|
        0 <= i < edges.len() ==> {
            let (p, q) = #[trigger] edges[i];
            &&& p != q
            &&& p.0 == q.0 || p.1 == q.1
            &&& length(pt(p), pt(q)) < 0x100_0000
        }
}

/// What a link of a fresh graph is.
spec fn fair(web: Web, a: int, link: (usize, i64)) -> bool {
    let (p, q) = (web.points[a], web.points[link.0 as int]);
    &&& link.0 < web.points.len()
    &&& p != q
    &&& p.0 == q.0 || p.1 == q.1
    &&& length(pt(p), pt(q)) < 0x100_0000
    &&& link.1 == weight(pt(p), pt(q), Single::unity()) as i64
}

proof fn lemma_fresh_links(web: Web, edges: Seq<(Point, Point)>)
    requires
        web.wf(),
        web.points.len() <= usize::MAX,
        axis_edges(edges),
        forall|i: int| 0 <= i < web.adj.len() ==> (#[trigger] web.adj[i]).len() == 0,
    ensures
        ({
            let all = web.with_edges(edges, Single::unity());
            &&& all.wf() && all.points == web.points
            &&& forall|a: int, k: int|
                0 <= a < all.adj.len() && 0 <= k < all.adj[a].len() ==> fair(
                    web,
                    a,
                    #[trigger] all.adj[a][k],
                )
        }),
    decreases edges.len(),
{
    if edges.len() > 0 {
        let head = edges.drop_last();
        assert(axis_edges(head)) by {
            assert forall|i: int| 0 <= i < head.len() implies #[trigger] head[i] == edges[i] by {}
        }
        lemma_fresh_links(web, head);
        let before = web.with_edges(head, Single::unity());
        let (p, q) = edges.last();
        assert(edges[edges.len() - 1] == edges.last());
        lemma_slot(web.points, p);
        lemma_slot(web.points, q);
        if let (Some(i), Some(j)) = (slot(web.points, p), slot(web.points, q)) {
            let (u, v) = (i as usize, j as usize);
            let w = weight(pt(p), pt(q), Single::unity()) as i64;
            lemma_linked(before, u, v, w);
            lemma_either_way(pt(p), pt(q), Single::unity(), 0);
            let all = web.with_edges(edges, Single::unity());
            assert forall|a: int, k: int|
                0 <= a < all.adj.len() && 0 <= k < all.adj[a].len() implies fair(
                web,
                a,
                #[trigger] all.adj[a][k],
            ) by {
                if k < before.adj[a].len() {
                    assert(all.adj[a][k] == before.adj[a][k]);
                }
            }
        }
    }
}

/// A fresh graph of edges along the axes is one on which the path found is the cheapest.
pub proof fn law_fresh_is_squared_off(g: Grid, edges: Seq<(Point, Point)>)
    requires
        axis_edges(edges),
        web_of(g, Seq::empty(), Single::unity()).points.len() <= usize::MAX,
    ensures
        web_of(g, edges, Single::unity()).even(),
        plain(web_of(g, edges, Single::unity())),
        squared_off(web_of(g, edges, Single::unity())),
{
    let one = Single::unity();
    let points = crossings(g.x@, g.y@);
    let bare = Web { points, adj: Seq::new(points.len(), |i: int| Seq::empty()) };
    assert(web_of(g, Seq::empty(), one) == bare);
    let web = web_of(g, edges, one);
    assert forall|i: int| 0 <= i < edges.len() implies (#[trigger] edges[i]).0 != edges[i].1 by {}
    lemma_fresh(g, edges);
    lemma_fresh_links(bare, edges);
    assert forall|a: int, k: int|
        0 <= a < web.adj.len() && 0 <= k < web.adj[a].len() implies weight_to(
        web.adj[a],
        (#[trigger] web.adj[a][k]).0,
    ) == Some(web.adj[a][k].1) && ({
        let (p, q) = (web.points[a], web.points[web.adj[a][k].0 as int]);
        (p.0 == q.0 || p.1 == q.1) && length(pt(p), pt(q)) <= web.adj[a][k].1
    }) by {
        let (b, w) = web.adj[a][k];
        assert(fair(bare, a, web.adj[a][k]));
        lemma_weight_leads(web.adj[a], b);
        assert(leads_to(web.adj[a], b));
        let j = lemma_weight_link(web.adj[a], b);
        assert(fair(bare, a, web.adj[a][j]));
        let (p, q) = (web.points[a], web.points[b as int]);
        lemma_weight_unsigned(pt(p), pt(q), one);
        law_horizontal_costs_one_more(pt(p), pt(q));
    }
}

/// The search between two points of a graph.
pub open spec fn quest_of(web: Web, start: Point, goal: Point, penalty: Single) -> Quest {
    Quest {
        web,
        source: slot(web.points, start)->Some_0 as usize,
        target: slot(web.points, goal)->Some_0 as usize,
        penalty,
    }
}

} // verus!
