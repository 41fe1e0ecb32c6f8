//! The cheapest route between two points.

use crate::geom::{pt, Point};
use crate::rdl::cost::{distance, length};
use crate::rdl::graph::{leads_to, lemma_slot, slot, Graph, Links, Web};
use crate::rdl::heap::{law_pop_takes_first, law_push_adds, popped, pushed, CostHeap, Entry};
use crate::single::{clip, Single};
use vstd::prelude::*;

verus! {

/// No predecessor yet.
pub const NONE: usize = usize::MAX;

/// No way found yet.
pub const FAR: i64 = i64::MAX;

/// A sum held within the machine's range.
pub open spec fn sat(v: int) -> i64 {
    clip(v, i64::MIN as int, i64::MAX as int) as i64
}

fn sat_add(a: i64, b: i64) -> (s: i64)
    ensures
        s == sat(a + b),
{
    let v: i128 = a as i128 + b as i128;
    if v < i64::MIN as i128 {
        i64::MIN
    } else if v > i64::MAX as i128 {
        i64::MAX
    } else {
        v as i64
    }
}

/// What is searched: a graph, the two ends' vertices, and how dear a turn is.
pub struct Quest {
    pub web: Web,
    pub source: usize,
    pub target: usize,
    pub penalty: Single,
}

/// How far a search has come: the best cost known to each vertex, the vertex it was reached from,
/// and the queue.
pub struct Search {
    pub dist: Seq<i64>,
    pub prev: Seq<usize>,
    pub heap: Seq<Entry>,
}

/// The two steps go the same way and equally far.
pub open spec fn straight_on(a: Point, b: Point, c: Point) -> bool {
    b.0 - a.0 == c.0 - b.0 && b.1 - a.1 == c.1 - b.1
}

impl Quest {
    pub open spec fn wf(self) -> bool {
        &&& self.web.wf()
        &&& self.web.nonneg()
        &&& self.source < self.web.points.len() <= usize::MAX
        &&& self.target < self.web.points.len()
    }

    /// The estimate of what is left from `v`: the distance to the goal, and a penalty where
    /// arriving at `v` turned, judged by the predecessors recorded so far.
    pub open spec fn estimate(self, prev: Seq<usize>, v: usize) -> i64 {
        let p = self.web.points[v as int];
        let base = length(pt(self.web.points[self.target as int]), pt(p));
        let c = prev[v as int];
        let b = prev[c as int];
        if c == NONE || c == self.source || b == NONE || b == self.source {
            base as i64
        } else {
            let (pc, pb) = (self.web.points[c as int], self.web.points[b as int]);
            if straight_on(pb, pc, p) {
                base as i64
            } else {
                let turn = self.penalty.times(Single::of_int(length(pt(pb), pt(pc)))).truncated(
                    i64::MIN as int,
                    i64::MAX as int,
                );
                sat(base + turn)
            }
        }
    }

    /// The search before its first step: only the source is known.
    pub open spec fn start(self) -> Search {
        let n = self.web.points.len();
        let dist = Seq::new(n, |i: int| FAR).update(self.source as int, 0);
        let prev = Seq::new(n, |i: int| NONE).update(self.source as int, self.source);
        Search {
            dist,
            prev,
            heap: pushed(Seq::empty(), (self.estimate(prev, self.source), self.source)),
        }
    }

    /// `v` queued at its cost and estimate.
    pub open spec fn queue(self, s: Search, v: usize) -> Search {
        let f = sat(s.dist[v as int] + self.estimate(s.prev, v));
        Search { dist: s.dist, prev: s.prev, heap: pushed(s.heap, (f, v)) }
    }

    /// The edge from `u` to `v` tried: it may shorten the way to `v`, or else, being undirected,
    /// the way to `u`. Either way it is `v` that is queued.
    pub open spec fn relaxed(self, s: Search, u: usize, v: usize, w: i64) -> Search {
        let (du, dv) = (s.dist[u as int], s.dist[v as int]);
        if sat(du + w) < dv {
            self.queue(
                Search {
                    dist: s.dist.update(v as int, sat(du + w)),
                    prev: s.prev.update(v as int, u),
                    heap: s.heap,
                },
                v,
            )
        } else if sat(dv + w) < du {
            self.queue(
                Search {
                    dist: s.dist.update(u as int, sat(dv + w)),
                    prev: s.prev.update(u as int, v),
                    heap: s.heap,
                },
                v,
            )
        } else {
            s
        }
    }

    /// Each of the listed edges out of `u` tried in turn.
    pub open spec fn expanded(self, s: Search, u: usize, links: Links) -> Search
        decreases links.len(),
    {
        if links.len() == 0 {
            s
        } else {
            let (v, w) = links.last();
            self.relaxed(self.expanded(s, u, links.drop_last()), u, v, w)
        }
    }

    /// The search is over: nothing is queued, or the goal is next.
    pub open spec fn over(self, s: Search) -> bool {
        s.heap.len() == 0 || s.heap[0].1 == self.target
    }

    /// One step: the first vertex of the queue is taken and expanded.
    pub open spec fn step(self, s: Search) -> Search {
        if self.over(s) {
            s
        } else {
            let u = s.heap[0].1;
            self.expanded(
                Search { dist: s.dist, prev: s.prev, heap: popped(s.heap) },
                u,
                self.web.adj[u as int],
            )
        }
    }

    /// The search after `n` steps.
    pub open spec fn after(self, n: nat) -> Search
        decreases n,
    {
        if n == 0 {
            self.start()
        } else {
            self.step(self.after((n - 1) as nat))
        }
    }

    /// How the search ends.
    pub open spec fn end(self) -> Search {
        self.after(choose|n: nat| self.over(#[trigger] self.after(n)))
    }
}

/// `trail` leads from a vertex that is its own predecessor to `v`, each vertex the predecessor of
/// the next.
pub open spec fn is_trail(prev: Seq<usize>, v: usize, trail: Seq<usize>) -> bool {
    &&& trail.len() > 0
    &&& trail.last() == v
    &&& prev[trail[0] as int] == trail[0]
    &&& forall|k: int|
        1 <= k < trail.len() ==> prev[(#[trigger] trail[k]) as int] == trail[k - 1] && trail[k - 1]
            != trail[k]
}

/// The trail to a vertex.
pub open spec fn trail_to(prev: Seq<usize>, v: usize) -> Seq<usize> {
    choose|trail: Seq<usize>| is_trail(prev, v, trail)
}

/// The points of a trail.
pub open spec fn points_of(web: Web, trail: Seq<usize>) -> Seq<Point> {
    Seq::new(trail.len(), |i: int| web.points[trail[i] as int])
}

/// The path that the search settles on; none where an end is not on the graph or cannot be
/// reached.
pub open spec fn found(web: Web, start: Point, goal: Point, penalty: Single) -> Seq<Point> {
    match (slot(web.points, start), slot(web.points, goal)) {
        (Some(s), Some(t)) => {
            let quest = Quest { web, source: s as usize, target: t as usize, penalty };
            let end = quest.end();
            if end.heap.len() == 0 {
                Seq::empty()
            } else {
                points_of(web, trail_to(end.prev, t as usize))
            }
        },
        _ => Seq::empty(),
    }
}

/// A vertex has one trail.
pub(crate) proof fn lemma_one_trail(prev: Seq<usize>, v: usize, a: Seq<usize>, b: Seq<usize>)
    requires
        is_trail(prev, v, a),
        is_trail(prev, v, b),
    ensures
        a == b,
    decreases a.len(),
{
    assert(a.len() > 1 ==> prev[a[a.len() - 1] as int] == a[a.len() - 2]);
    assert(b.len() > 1 ==> prev[b[b.len() - 1] as int] == b[b.len() - 2]);
    if a.len() == 1 {
        assert(b.len() == 1);
        assert(a =~= b);
    } else {
        assert(b.len() > 1);
        let (x, y) = (a.drop_last(), b.drop_last());
        assert forall|k: int| 1 <= k < x.len() implies prev[(#[trigger] x[k]) as int] == x[k - 1]
            && x[k - 1] != x[k] by {
            assert(a[k] == x[k]);
        }
        assert forall|k: int| 1 <= k < y.len() implies prev[(#[trigger] y[k]) as int] == y[k - 1]
            && y[k - 1] != y[k] by {
            assert(b[k] == y[k]);
        }
        lemma_one_trail(prev, prev[v as int], x, y);
        assert(a =~= x.push(v));
        assert(b =~= y.push(v));
    }
}

/// Once the search is over it stays as it is.
proof fn lemma_stays(quest: Quest, n: nat, m: nat)
    requires
        quest.over(quest.after(n)),
        n <= m,
    ensures
        quest.after(m) == quest.after(n),
    decreases m,
{
    if n < m {
        lemma_stays(quest, n, (m - 1) as nat);
    }
}

/// However many steps it takes, a search ends one way.
pub(crate) proof fn lemma_end(quest: Quest, n: nat)
    requires
        quest.over(quest.after(n)),
    ensures
        quest.end() == quest.after(n),
{
    let m = choose|n: nat| quest.over(#[trigger] quest.after(n));
    if n <= m {
        lemma_stays(quest, n, m);
    } else {
        lemma_stays(quest, m, n);
    }
}

/// The vertices are neighbours, seen from one end or the other.
pub open spec fn adjacent(web: Web, a: usize, b: usize) -> bool {
    leads_to(web.adj[a as int], b) || leads_to(web.adj[b as int], a)
}

/// What a search keeps. Each vertex with a known cost other than the source was reached from a
/// neighbour with a known cost that is less, or that is equal and was set earlier.
pub open spec fn holds(q: Quest, s: Search, stamp: Seq<int>, clock: int) -> bool {
    let n = q.web.points.len();
    &&& s.dist.len() == n && s.prev.len() == n && stamp.len() == n
    &&& s.dist[q.source as int] == 0 && s.prev[q.source as int] == q.source
    &&& forall|v: int| 0 <= v < n ==> (#[trigger] s.dist[v]) >= 0
    &&& forall|v: int| 0 <= v < n ==> 0 <= (#[trigger] stamp[v]) < clock
    &&& 0 <= clock
    &&& forall|v: int| #![trigger s.prev[v]]
        0 <= v < n && v != q.source ==> {
            if s.dist[v] == FAR {
                s.prev[v] == NONE
            } else {
                let p = s.prev[v] as int;
                &&& p < n
                &&& s.dist[p] < s.dist[v] || (s.dist[p] == s.dist[v] && stamp[p] < stamp[v])
                &&& adjacent(q.web, p as usize, v as usize)
            }
        }
    &&& forall|k: int| #![trigger s.heap[k]]
        0 <= k < s.heap.len() ==> s.heap[k].1 < n && s.dist[s.heap[k].1 as int] < FAR
}

/// The same, for some order in which the costs were set.
pub open spec fn sound(q: Quest, s: Search) -> bool {
    exists|stamp: Seq<int>, clock: int| holds(q, s, stamp, clock)
}

/// The sum of the costs known.
pub open spec fn total(dist: Seq<i64>) -> int
    decreases dist.len(),
{
    if dist.len() == 0 {
        0
    } else {
        total(dist.drop_last()) + dist.last()
    }
}

proof fn lemma_total_update(dist: Seq<i64>, v: int, d: i64)
    requires
        0 <= v < dist.len(),
    ensures
        total(dist.update(v, d)) == total(dist) - dist[v] + d,
    decreases dist.len(),
{
    if v == dist.len() - 1 {
        assert(dist.update(v, d).drop_last() =~= dist.drop_last());
    } else {
        assert(dist.update(v, d).drop_last() =~= dist.drop_last().update(v, d));
        lemma_total_update(dist.drop_last(), v, d);
    }
}

proof fn lemma_total_nonneg(dist: Seq<i64>)
    requires
        forall|v: int| 0 <= v < dist.len() ==> (#[trigger] dist[v]) >= 0,
    ensures
        total(dist) >= 0,
    decreases dist.len(),
{
    if dist.len() > 0 {
        assert forall|v: int| 0 <= v < dist.drop_last().len() implies (
        #[trigger] dist.drop_last()[v]) >= 0 by {
            assert(dist[v] >= 0);
        }
        lemma_total_nonneg(dist.drop_last());
        assert(dist[dist.len() - 1] >= 0);
    }
}

/// A push of a vertex with a known cost keeps the queue's entries sound.
proof fn lemma_queue_holds(q: Quest, s: Search, v: usize, stamp: Seq<int>, clock: int)
    requires
        q.wf(),
        holds(q, s, stamp, clock),
        v < q.web.points.len(),
        s.dist[v as int] < FAR,
    ensures
        holds(q, q.queue(s, v), stamp, clock),
{
    let f = sat(s.dist[v as int] + q.estimate(s.prev, v));
    let t = q.queue(s, v);
    law_push_adds(s.heap, (f, v));
    assert forall|k: int| #![trigger t.heap[k]] 0 <= k < t.heap.len() implies t.heap[k].1
        < q.web.points.len() && t.dist[t.heap[k].1 as int] < FAR by {
        assert(t.heap.contains(t.heap[k]));
        if s.heap.contains(t.heap[k]) {
            let j = choose|j: int| 0 <= j < s.heap.len() && s.heap[j] == t.heap[k];
            assert(s.heap[j].1 < q.web.points.len());
        }
    }
}

/// A shorter way to `v`, from its neighbour `u`.
proof fn lemma_shortened(
    q: Quest,
    s: Search,
    u: usize,
    v: usize,
    w: i64,
    stamp: Seq<int>,
    clock: int,
) -> (t: Seq<int>)
    requires
        q.wf(),
        holds(q, s, stamp, clock),
        u < q.web.points.len(),
        v < q.web.points.len(),
        w >= 0,
        adjacent(q.web, u, v),
        sat(s.dist[u as int] + w) < s.dist[v as int],
    ensures
        ({
            let d = sat(s.dist[u as int] + w);
            let next = Search {
                dist: s.dist.update(v as int, d),
                prev: s.prev.update(v as int, u),
                heap: s.heap,
            };
            &&& holds(q, next, t, clock + 1)
            &&& total(next.dist) < total(s.dist)
            &&& next.dist[v as int] < FAR
            &&& next.dist[u as int] < FAR
            &&& next.dist[v as int] == s.dist[u as int] + w
        }),
{
    let n = q.web.points.len();
    let d = sat(s.dist[u as int] + w);
    let t = stamp.update(v as int, clock);
    let next = Search {
        dist: s.dist.update(v as int, d),
        prev: s.prev.update(v as int, u),
        heap: s.heap,
    };
    assert(s.dist[u as int] >= 0);
    assert(d == s.dist[u as int] + w);
    assert(u != v);
    assert(v != q.source) by {
        if v == q.source {
            assert(s.dist[v as int] == 0);
        }
    }
    lemma_total_update(s.dist, v as int, d);
    assert(s.dist[v as int] >= 0);
    assert(stamp[u as int] < clock);
    assert forall|x: int| #![trigger next.prev[x]] 0 <= x < n && x != q.source implies {
        if next.dist[x] == FAR {
            next.prev[x] == NONE
        } else {
            let p = next.prev[x] as int;
            &&& p < n
            &&& next.dist[p] < next.dist[x] || (next.dist[p] == next.dist[x] && t[p] < t[x])
            &&& adjacent(q.web, p as usize, x as usize)
        }
    } by {
        if x != v {
            assert(next.prev[x] == s.prev[x]);
            if s.dist[x] < FAR {
                let p = s.prev[x] as int;
                assert(p < n);
                if p == v {
                    assert(next.dist[p] < s.dist[p]);
                    assert(s.dist[p] <= s.dist[x]);
                }
            } else {
                assert(s.dist[x] == FAR);
            }
        } else {
            assert(t[u as int] == stamp[u as int]);
        }
    }
    assert forall|x: int| 0 <= x < n implies (#[trigger] next.dist[x]) >= 0 by {
        assert(s.dist[x] >= 0);
    }
    assert forall|x: int| 0 <= x < n implies 0 <= (#[trigger] t[x]) < clock + 1 by {
        assert(0 <= stamp[x] < clock);
    }
    assert forall|k: int| #![trigger next.heap[k]] 0 <= k < next.heap.len() implies next.heap[k].1
        < n && next.dist[next.heap[k].1 as int] < FAR by {
        assert(s.heap[k].1 < n);
    }
    t
}

/// Trying an edge keeps the search sound, and what it changes it shortens.
proof fn lemma_relaxed(q: Quest, s: Search, u: usize, v: usize, w: i64)
    requires
        q.wf(),
        sound(q, s),
        u < q.web.points.len(),
        v < q.web.points.len(),
        s.dist[u as int] < FAR,
        w >= 0,
        leads_to(q.web.adj[u as int], v),
    ensures
        sound(q, q.relaxed(s, u, v, w)),
        q.relaxed(s, u, v, w) == s || total(q.relaxed(s, u, v, w).dist) < total(s.dist),
        q.relaxed(s, u, v, w).dist[u as int] < FAR,
{
    let (stamp, clock) = choose|stamp: Seq<int>, clock: int| holds(q, s, stamp, clock);
    let (du, dv) = (s.dist[u as int], s.dist[v as int]);
    if sat(du + w) < dv {
        let t = lemma_shortened(q, s, u, v, w, stamp, clock);
        let next = Search {
            dist: s.dist.update(v as int, sat(du + w)),
            prev: s.prev.update(v as int, u),
            heap: s.heap,
        };
        lemma_queue_holds(q, next, v, t, clock + 1);
        assert(sound(q, q.relaxed(s, u, v, w)));
    } else if sat(dv + w) < du {
        let t = lemma_shortened(q, s, v, u, w, stamp, clock);
        let next = Search {
            dist: s.dist.update(u as int, sat(dv + w)),
            prev: s.prev.update(u as int, v),
            heap: s.heap,
        };
        lemma_queue_holds(q, next, v, t, clock + 1);
        assert(sound(q, q.relaxed(s, u, v, w)));
    }
}

pub(crate) proof fn lemma_expanded(q: Quest, s: Search, u: usize, links: Links)
    requires
        q.wf(),
        sound(q, s),
        u < q.web.points.len(),
        s.dist[u as int] < FAR,
        links.is_prefix_of(q.web.adj[u as int]),
    ensures
        sound(q, q.expanded(s, u, links)),
        q.expanded(s, u, links) == s || total(q.expanded(s, u, links).dist) < total(s.dist),
        q.expanded(s, u, links).dist[u as int] < FAR,
    decreases links.len(),
{
    if links.len() > 0 {
        let head = links.drop_last();
        assert(head.is_prefix_of(q.web.adj[u as int]));
        lemma_expanded(q, s, u, head);
        let (v, w) = links.last();
        let k = links.len() - 1;
        assert(q.web.adj[u as int][k] == links[k]);
        assert(q.web.adj[u as int][k].0 < q.web.points.len());
        assert(q.web.adj[u as int][k].1 >= 0);
        lemma_relaxed(q, q.expanded(s, u, head), u, v, w);
    }
}

/// The search starts sound.
proof fn lemma_start(q: Quest)
    requires
        q.wf(),
    ensures
        sound(q, q.start()),
        q.start().heap.len() > 0,
{
    let s = q.start();
    let n = q.web.points.len();
    let entry = (q.estimate(s.prev, q.source), q.source);
    law_push_adds(Seq::empty(), entry);
    let stamp = Seq::new(n, |i: int| 0int);
    assert forall|k: int| #![trigger s.heap[k]] 0 <= k < s.heap.len() implies s.heap[k].1 < n
        && s.dist[s.heap[k].1 as int] < FAR by {
        assert(s.heap.contains(s.heap[k]));
    }
    assert(holds(q, s, stamp, 1));
}

/// Taking the first entry off the queue keeps the search sound.
pub(crate) proof fn lemma_popped(q: Quest, s: Search)
    requires
        q.wf(),
        sound(q, s),
        s.heap.len() > 0,
    ensures
        sound(q, Search { dist: s.dist, prev: s.prev, heap: popped(s.heap) }),
        s.heap[0].1 < q.web.points.len(),
        s.dist[s.heap[0].1 as int] < FAR,
{
    let (stamp, clock) = choose|stamp: Seq<int>, clock: int| holds(q, s, stamp, clock);
    law_pop_takes_first(s.heap);
    let next = Search { dist: s.dist, prev: s.prev, heap: popped(s.heap) };
    assert forall|k: int| #![trigger next.heap[k]] 0 <= k < next.heap.len() implies next.heap[k].1
        < q.web.points.len() && next.dist[next.heap[k].1 as int] < FAR by {
        assert(popped(s.heap).contains(next.heap[k]));
        let j = choose|j: int| 0 <= j < s.heap.len() && s.heap[j] == next.heap[k];
        assert(s.heap[j].1 < q.web.points.len());
    }
    assert(holds(q, next, stamp, clock));
}

/// How far a search has come.
struct Frontier {
    dist: Vec<i64>,
    prev: Vec<usize>,
    heap: CostHeap,
}

impl View for Frontier {
    type V = Search;

    closed spec fn view(&self) -> Search {
        Search { dist: self.dist@, prev: self.prev@, heap: self.heap@ }
    }
}

/// Every recorded predecessor is a vertex.
spec fn recorded(prev: Seq<usize>, n: int) -> bool {
    prev.len() == n && forall|v: int| #![trigger prev[v]]
        0 <= v < n ==> prev[v] == NONE || prev[v] < n
}

proof fn lemma_recorded(q: Quest, s: Search)
    requires
        q.wf(),
        sound(q, s),
    ensures
        recorded(s.prev, q.web.points.len() as int),
        s.dist.len() == q.web.points.len(),
{
    let (stamp, clock) = choose|stamp: Seq<int>, clock: int| holds(q, s, stamp, clock);
    assert forall|v: int| #![trigger s.prev[v]] 0 <= v < q.web.points.len() implies s.prev[v]
        == NONE || s.prev[v] < q.web.points.len() by {}
}

proof fn lemma_quest(graph: Graph, q: Quest)
    requires
        graph.wf(),
        graph@.nonneg(),
        q.web == graph@,
        q.source < q.web.points.len(),
        q.target < q.web.points.len(),
    ensures
        q.wf(),
{
    assert(graph.points.len() == graph.points@.len());
}

/// The estimate of what is left from `v`.
fn estimate(
    graph: &Graph,
    source: usize,
    target: usize,
    penalty: Single,
    prev: &Vec<usize>,
    v: usize,
) -> (f: i64)
    requires
        graph.wf(),
        v < graph@.points.len(),
        target < graph@.points.len(),
        recorded(prev@, graph@.points.len() as int),
    ensures
        f == (Quest { web: graph@, source, target, penalty }).estimate(prev@, v),
{
    let p = graph.points[v];
    let base: i64 = distance(graph.points[target], p);
    let c: usize = prev[v];
    if c == NONE || c == source {
        return base;
    }
    let b: usize = prev[c];
    if b == NONE || b == source {
        return base;
    }
    let (pc, pb) = (graph.points[c], graph.points[b]);
    let straight = pc.0 as i64 - pb.0 as i64 == p.0 as i64 - pc.0 as i64 && pc.1 as i64
        - pb.1 as i64 == p.1 as i64 - pc.1 as i64;
    if straight {
        base
    } else {
        let turn: i64 = penalty.multiply(Single::from_int(distance(pb, pc))).to_i64();
        sat_add(base, turn)
    }
}

impl Frontier {
    /// The search before its first step.
    fn start(graph: &Graph, source: usize, target: usize, penalty: Single) -> (s: Frontier)
        requires
            graph.wf(),
            graph@.nonneg(),
            source < graph@.points.len(),
            target < graph@.points.len(),
        ensures
            s@ == (Quest { web: graph@, source, target, penalty }).start(),
    {
        let n: usize = graph.points.len();
        let mut dist: Vec<i64> = Vec::new();
        let mut prev: Vec<usize> = Vec::new();
        let mut i: usize = 0;
        while i < n
            invariant
                i <= n,
                dist@ == Seq::new(i as nat, |k: int| FAR),
                prev@ == Seq::new(i as nat, |k: int| NONE),
            decreases n - i,
        {
            dist.push(FAR);
            prev.push(NONE);
            assert(dist@ =~= Seq::new((i + 1) as nat, |k: int| FAR));
            assert(prev@ =~= Seq::new((i + 1) as nat, |k: int| NONE));
            i += 1;
        }
        dist.set(source, 0);
        prev.set(source, source);
        let mut heap = CostHeap::new();
        let f: i64 = estimate(graph, source, target, penalty, &prev, source);
        heap.push((f, source));
        Frontier { dist, prev, heap }
    }

    /// Try the edge from `u` to `v`.
    fn relax(
        &mut self,
        graph: &Graph,
        source: usize,
        target: usize,
        penalty: Single,
        u: usize,
        v: usize,
        w: i64,
    )
        requires
            graph.wf(),
            graph@.nonneg(),
            source < graph@.points.len(),
            target < graph@.points.len(),
            u < graph@.points.len(),
            v < graph@.points.len(),
            sound(Quest { web: graph@, source, target, penalty }, old(self)@),
        ensures
            final(self)@ == (Quest { web: graph@, source, target, penalty }).relaxed(
                old(self)@,
                u,
                v,
                w,
            ),
    {
        let ghost q = Quest { web: graph@, source, target, penalty };
        proof {
            lemma_quest(*graph, q);
            lemma_recorded(q, self@);
        }
        let forward: i64 = sat_add(self.dist[u], w);
        let backward: i64 = sat_add(self.dist[v], w);
        if forward < self.dist[v] {
            self.dist.set(v, forward);
            self.prev.set(v, u);
        } else if backward < self.dist[u] {
            self.dist.set(u, backward);
            self.prev.set(u, v);
        } else {
            return;
        }
        assert(recorded(self.prev@, graph@.points.len() as int));
        let h: i64 = estimate(graph, source, target, penalty, &self.prev, v);
        let f: i64 = sat_add(self.dist[v], h);
        self.heap.push((f, v));
    }

    /// Try every edge out of `u`.
    fn expand(&mut self, graph: &Graph, source: usize, target: usize, penalty: Single, u: usize)
        requires
            graph.wf(),
            graph@.nonneg(),
            source < graph@.points.len(),
            target < graph@.points.len(),
            u < graph@.points.len(),
            sound(Quest { web: graph@, source, target, penalty }, old(self)@),
            old(self)@.dist[u as int] < FAR,
        ensures
            final(self)@ == (Quest { web: graph@, source, target, penalty }).expanded(
                old(self)@,
                u,
                graph@.adj[u as int],
            ),
            sound(Quest { web: graph@, source, target, penalty }, final(self)@),
            final(self)@ == old(self)@ || total(final(self)@.dist) < total(old(self)@.dist),
    {
        let ghost q = Quest { web: graph@, source, target, penalty };
        let ghost s = self@;
        proof {
            lemma_quest(*graph, q);
        }
        let links = &graph.adj[u];
        let mut k: usize = 0;
        assert(links@.take(0) =~= Seq::<(usize, i64)>::empty());
        while k < links.len()
            invariant
                k <= links.len(),
                graph.wf(),
                q == (Quest { web: graph@, source, target, penalty }),
                q.wf(),
                u < graph@.points.len(),
                links@ == graph@.adj[u as int],
                sound(q, s),
                s.dist[u as int] < FAR,
                self@ == q.expanded(s, u, links@.take(k as int)),
            decreases links.len() - k,
        {
            let (v, w) = links[k];
            assert(graph@.adj[u as int][k as int].0 < graph@.points.len());
            proof {
                lemma_expanded(q, s, u, links@.take(k as int));
            }
            assert(links@.take(k + 1).drop_last() =~= links@.take(k as int));
            self.relax(graph, source, target, penalty, u, v, w);
            k += 1;
        }
        proof {
            assert(links@.take(links@.len() as int) =~= links@);
            lemma_expanded(q, s, u, links@);
        }
    }

    /// The trail to a vertex, as points.
    fn trace(
        &self,
        graph: &Graph,
        source: usize,
        target: usize,
        Ghost(penalty): Ghost<Single>,
    ) -> (path: Vec<Point>)
        requires
            graph.wf(),
            (Quest { web: graph@, source, target, penalty }).wf(),
            sound(Quest { web: graph@, source, target, penalty }, self@),
            self@.dist[target as int] < FAR,
        ensures
            exists|trail: Seq<usize>|
                is_trail(self@.prev, target, trail) && path@ == points_of(graph@, trail)
                    && joins(graph@, source, target, trail),
    {
        let ghost q = Quest { web: graph@, source, target, penalty };
        let ghost (stamp, clock) = choose|stamp: Seq<int>, clock: int|
            holds(q, self@, stamp, clock);
        let mut back: Vec<usize> = Vec::new();
        back.push(target);
        let mut v: usize = target;
        while self.prev[v] != v
            invariant
                graph.wf(),
                q.wf(),
                q.web == graph@,
                q.source == source,
                holds(q, self@, stamp, clock),
                v < graph@.points.len(),
                self@.dist[v as int] < FAR,
                back.len() > 0,
                back@[0] == target,
                back@.last() == v,
                forall|k: int| 0 <= k < back.len() ==> #[trigger] back@[k] < graph@.points.len(),
                forall|k: int|
                    0 <= k < back.len() - 1 ==> self@.prev[(#[trigger] back@[k]) as int] == back@[k
                        + 1] && back@[k + 1] != back@[k] && adjacent(
                        graph@,
                        back@[k + 1],
                        back@[k],
                    ),
            decreases self@.dist[v as int], stamp[v as int],
        {
            proof {
                lemma_stamps(q, self@, stamp, clock, v as int);
            }
            v = self.prev[v];
            back.push(v);
        }
        assert(v == source) by {
            if v != source {
                assert(self@.prev[v as int] == v);
            }
        }
        let ghost trail = back@.reverse();
        let mut path: Vec<Point> = Vec::new();
        let mut i: usize = back.len();
        while i > 0
            invariant
                graph.wf(),
                i <= back.len(),
                trail == back@.reverse(),
                path.len() == back.len() - i,
                forall|k: int| 0 <= k < back.len() ==> #[trigger] back@[k] < graph@.points.len(),
                forall|k: int|
                    0 <= k < path.len() ==> #[trigger] path@[k] == graph@.points[trail[k] as int],
            decreases i,
        {
            i -= 1;
            path.push(graph.points[back[i]]);
        }
        proof {
            assert(path@ =~= points_of(graph@, trail));
            let m = back@.len() - 1;
            assert forall|k: int| 1 <= k < trail.len() implies self@.prev[(
            #[trigger] trail[k]) as int] == trail[k - 1] && trail[k - 1] != trail[k] && adjacent(
                graph@,
                trail[k - 1],
                trail[k],
            ) by {
                assert(trail[k] == back@[m - k]);
                assert(trail[k - 1] == back@[m - k + 1]);
            }
            assert(is_trail(self@.prev, target, trail));
            assert(joins(graph@, source, target, trail));
        }
        path
    }
}

/// A vertex's predecessor has a lower cost, or as low a one that was set earlier.
proof fn lemma_stamps(q: Quest, s: Search, stamp: Seq<int>, clock: int, v: int)
    requires
        holds(q, s, stamp, clock),
        q.wf(),
        0 <= v < q.web.points.len(),
        s.dist[v] < FAR,
        s.prev[v] != v,
    ensures
        ({
            let p = s.prev[v] as int;
            &&& 0 <= p < q.web.points.len()
            &&& 0 <= s.dist[p] < FAR
            &&& s.dist[p] < s.dist[v] || (s.dist[p] == s.dist[v] && stamp[p] < stamp[v])
            &&& adjacent(q.web, p as usize, v as usize)
        }),
{
}

/// The vertices lead from one to another, each next to the one before.
pub open spec fn joins(web: Web, a: usize, b: usize, trail: Seq<usize>) -> bool {
    &&& trail.len() > 0 && trail[0] == a && trail.last() == b
    &&& forall|k: int| 0 <= k < trail.len() ==> #[trigger] trail[k] < web.points.len()
    &&& forall|k: int|
        1 <= k < trail.len() ==> adjacent(web, trail[k - 1], #[trigger] trail[k])
}

/// A step keeps the search sound, and it shortens a way or takes one entry off the queue.
proof fn lemma_step(q: Quest, s: Search)
    requires
        q.wf(),
        sound(q, s),
        !q.over(s),
    ensures
        sound(q, q.step(s)),
        total(q.step(s).dist) < total(s.dist) || (total(q.step(s).dist) == total(s.dist)
            && q.step(s).heap.len() < s.heap.len()),
{
    lemma_popped(q, s);
    law_pop_takes_first(s.heap);
    let u = s.heap[0].1;
    let next = Search { dist: s.dist, prev: s.prev, heap: popped(s.heap) };
    lemma_expanded(q, next, u, q.web.adj[u as int]);
}

pub(crate) proof fn lemma_after(q: Quest, n: nat)
    requires
        q.wf(),
    ensures
        sound(q, q.after(n)),
    decreases n,
{
    if n == 0 {
        lemma_start(q);
    } else {
        lemma_after(q, (n - 1) as nat);
        if !q.over(q.after((n - 1) as nat)) {
            lemma_step(q, q.after((n - 1) as nat));
        }
    }
}

/// What a sound search has in known costs is not below nothing.
proof fn lemma_total_sound(q: Quest, s: Search)
    requires
        sound(q, s),
    ensures
        total(s.dist) >= 0,
{
    let (stamp, clock) = choose|stamp: Seq<int>, clock: int| holds(q, s, stamp, clock);
    lemma_total_nonneg(s.dist);
}

/// The search comes to an end.
pub proof fn law_search_ends(q: Quest)
    requires
        q.wf(),
    ensures
        q.over(q.end()),
{
    lemma_halts(q, 0);
}

proof fn lemma_halts(q: Quest, k: nat)
    requires
        q.wf(),
    ensures
        exists|n: nat| q.over(#[trigger] q.after(n)),
    decreases total(q.after(k).dist), q.after(k).heap.len(),
{
    let s = q.after(k);
    if q.over(s) {
        assert(q.over(q.after(k)));
    } else {
        lemma_after(q, k);
        lemma_step(q, s);
        assert(q.after(k + 1) == q.step(s));
        lemma_after(q, k + 1);
        lemma_total_sound(q, q.after(k + 1));
        lemma_total_sound(q, s);
        lemma_halts(q, k + 1);
    }
}

/// How many costs are known.
pub open spec fn known(dist: Seq<i64>) -> int
    decreases dist.len(),
{
    if dist.len() == 0 {
        0
    } else {
        known(dist.drop_last()) + if dist.last() < FAR { 1int } else { 0 }
    }
}

proof fn lemma_known_update(dist: Seq<i64>, v: int, d: i64)
    requires
        0 <= v < dist.len(),
        d < FAR,
    ensures
        known(dist.update(v, d)) == known(dist) + if dist[v] < FAR { 0int } else { 1 },
    decreases dist.len(),
{
    if v == dist.len() - 1 {
        assert(dist.update(v, d).drop_last() =~= dist.drop_last());
    } else {
        assert(dist.update(v, d).drop_last() =~= dist.drop_last().update(v, d));
        lemma_known_update(dist.drop_last(), v, d);
    }
}

pub(crate) proof fn lemma_known_range(dist: Seq<i64>)
    ensures
        0 <= known(dist) <= dist.len(),
    decreases dist.len(),
{
    if dist.len() > 0 {
        lemma_known_range(dist.drop_last());
    }
}

/// A vertex is on the queue.
pub open spec fn queued(heap: Seq<Entry>, v: usize) -> bool {
    exists|k: int| 0 <= k < heap.len() && (#[trigger] heap[k]).1 == v
}

/// No edge weighs more than `most`, and no way through all vertices adds up beyond what a cost can
/// hold.
pub open spec fn roomy(web: Web, most: int) -> bool {
    &&& 0 <= most
    &&& web.points.len() * most < FAR
    &&& forall|i: int, k: int|
        0 <= i < web.adj.len() && 0 <= k < web.adj[i].len() ==> (#[trigger] web.adj[i][k]).1
            <= most
}

/// Each known cost is no more than the heaviest edge times one less than how many are known.
pub open spec fn bounded(s: Search, most: int) -> bool {
    forall|v: int|
        0 <= v < s.dist.len() && s.dist[v] < FAR ==> #[trigger] s.dist[v] <= (known(s.dist) - 1)
            * most
}

/// The first `m` neighbours of `u` have known costs.
pub open spec fn looked(q: Quest, s: Search, u: int, m: int) -> bool {
    forall|k: int|
        0 <= k < m ==> s.dist[(#[trigger] q.web.adj[u][k]).0 as int] < FAR
}

/// Each vertex with a known cost, but for `u`, is on the queue or has been expanded.
pub open spec fn explored(q: Quest, s: Search, u: int) -> bool {
    forall|x: int| #![trigger s.dist[x]]
        0 <= x < q.web.points.len() && x != u && s.dist[x] < FAR ==> queued(s.heap, x as usize) || (
        x != q.target && looked(q, s, x, q.web.adj[x].len() as int))
}

proof fn lemma_relaxed_explored(q: Quest, s: Search, u: usize, m: int, most: int)
    requires
        q.wf(),
        sound(q, s),
        roomy(q.web, most),
        u < q.web.points.len(),
        s.dist[u as int] < FAR,
        0 <= m < q.web.adj[u as int].len(),
        bounded(s, most),
        looked(q, s, u as int, m),
        explored(q, s, u as int),
    ensures
        ({
            let (v, w) = q.web.adj[u as int][m];
            let t = q.relaxed(s, u, v, w);
            &&& bounded(t, most)
            &&& looked(q, t, u as int, m + 1)
            &&& explored(q, t, u as int)
        }),
{
    let (v, w) = q.web.adj[u as int][m];
    let t = q.relaxed(s, u, v, w);
    let n = q.web.points.len();
    let (stamp, clock) = choose|stamp: Seq<int>, clock: int| holds(q, s, stamp, clock);
    let (du, dv) = (s.dist[u as int], s.dist[v as int]);
    assert(v < n);
    assert(0 <= w <= most);
    assert(leads_to(q.web.adj[u as int], v));
    lemma_known_range(s.dist);
    let c = known(s.dist);
    assert(du <= (c - 1) * most);
    assert((c - 1) * most + most == c * most) by (nonlinear_arith);
    assert(c * most <= n * most) by (nonlinear_arith)
        requires
            c <= n,
            most >= 0,
    ;
    assert(du >= 0 && dv >= 0);
    if t != s {
        let fwd = sat(du + w) < dv;
        let (x, d) = if fwd {
            (v, sat(du + w))
        } else {
            (u, sat(dv + w))
        };
        assert(t.dist == s.dist.update(x as int, d));
        assert(d < s.dist[x as int]);
        lemma_known_update(s.dist, x as int, d);
        let e = known(t.dist);
        assert((e - 1) * most >= (c - 1) * most) by (nonlinear_arith)
            requires
                e >= c,
                most >= 0,
        ;
        assert forall|y: int| 0 <= y < t.dist.len() && t.dist[y] < FAR implies #[trigger] t.dist[y]
            <= (e - 1) * most by {
            if y != x {
                assert(s.dist[y] <= (c - 1) * most);
            } else if s.dist[y] < FAR {
                assert(s.dist[y] <= (c - 1) * most);
            } else {
                assert(fwd);
                assert(d == du + w);
                assert(e - 1 == c);
            }
        }
        let f = sat(t.dist[v as int] + q.estimate(t.prev, v));
        law_push_adds(s.heap, (f, v));
        assert forall|y: usize| queued(s.heap, y) || y == v implies #[trigger] queued(
            t.heap,
            y,
        ) by {
            if queued(s.heap, y) {
                let k = choose|k: int| 0 <= k < s.heap.len() && (#[trigger] s.heap[k]).1 == y;
                assert(s.heap.contains(s.heap[k]));
                assert(t.heap.contains(s.heap[k]));
                let j = choose|j: int| 0 <= j < t.heap.len() && t.heap[j] == s.heap[k];
                assert(t.heap[j].1 == y);
            } else {
                assert(t.heap.contains((f, v)));
                let j = choose|j: int| 0 <= j < t.heap.len() && t.heap[j] == (f, v);
                assert(t.heap[j].1 == y);
            }
        }
        assert forall|y: int| #![trigger t.dist[y]] 0 <= y < n && y != u && t.dist[y]
            < FAR implies queued(t.heap, y as usize) || (y != q.target && looked(
            q,
            t,
            y,
            q.web.adj[y].len() as int,
        )) by {
            if y == v {
                assert(queued(t.heap, v));
            } else {
                assert(s.dist[y] < FAR);
                if !queued(s.heap, y as usize) {
                    assert(looked(q, s, y, q.web.adj[y].len() as int));
                    assert forall|k: int| 0 <= k < q.web.adj[y].len() implies t.dist[(
                    #[trigger] q.web.adj[y][k]).0 as int] < FAR by {
                        assert(s.dist[q.web.adj[y][k].0 as int] < FAR);
                    }
                }
            }
        }
        assert forall|k: int| 0 <= k < m + 1 implies t.dist[(
        #[trigger] q.web.adj[u as int][k]).0 as int] < FAR by {
            if k < m {
                assert(s.dist[q.web.adj[u as int][k].0 as int] < FAR);
            }
        }
    } else {
        assert(dv <= sat(du + w));
        assert forall|k: int| 0 <= k < m + 1 implies t.dist[(
        #[trigger] q.web.adj[u as int][k]).0 as int] < FAR by {
            if k < m {
                assert(s.dist[q.web.adj[u as int][k].0 as int] < FAR);
            }
        }
    }
}

pub(crate) proof fn lemma_expanded_explored(q: Quest, s: Search, u: usize, m: int, most: int)
    requires
        q.wf(),
        sound(q, s),
        roomy(q.web, most),
        u < q.web.points.len(),
        s.dist[u as int] < FAR,
        0 <= m <= q.web.adj[u as int].len(),
        bounded(s, most),
        explored(q, s, u as int),
    ensures
        ({
            let t = q.expanded(s, u, q.web.adj[u as int].take(m));
            &&& bounded(t, most)
            &&& looked(q, t, u as int, m)
            &&& explored(q, t, u as int)
        }),
    decreases m,
{
    let links = q.web.adj[u as int];
    if m > 0 {
        lemma_expanded_explored(q, s, u, m - 1, most);
        assert(links.take(m).drop_last() =~= links.take(m - 1));
        lemma_expanded(q, s, u, links.take(m - 1));
        lemma_relaxed_explored(q, q.expanded(s, u, links.take(m - 1)), u, m - 1, most);
    }
}

/// Taking the first entry off the queue leaves every other vertex on it that was.
pub(crate) proof fn lemma_popped_explored(q: Quest, s: Search)
    requires
        q.wf(),
        explored(q, s, -1),
        s.heap.len() > 0,
    ensures
        explored(
            q,
            Search { dist: s.dist, prev: s.prev, heap: popped(s.heap) },
            s.heap[0].1 as int,
        ),
{
    let u = s.heap[0].1;
    let next = Search { dist: s.dist, prev: s.prev, heap: popped(s.heap) };
    law_pop_takes_first(s.heap);
    assert forall|x: int| #![trigger next.dist[x]] 0 <= x < q.web.points.len() && x != u
        && next.dist[x] < FAR implies queued(next.heap, x as usize) || (x != q.target
        && looked(q, next, x, q.web.adj[x].len() as int)) by {
        assert(s.dist[x] < FAR);
        if queued(s.heap, x as usize) {
            let k = choose|k: int|
                0 <= k < s.heap.len() && (#[trigger] s.heap[k]).1 == x as usize;
            assert(next.heap.contains(s.heap[k]));
            let j = choose|j: int| 0 <= j < next.heap.len() && next.heap[j] == s.heap[k];
            assert(next.heap[j].1 == x as usize);
        } else {
            assert(looked(q, s, x, q.web.adj[x].len() as int));
            assert forall|k: int| 0 <= k < q.web.adj[x].len() implies next.dist[(
            #[trigger] q.web.adj[x][k]).0 as int] < FAR by {
                assert(s.dist[q.web.adj[x][k].0 as int] < FAR);
            }
        }
    }
}

pub(crate) proof fn lemma_after_explored(q: Quest, n: nat, most: int)
    requires
        q.wf(),
        roomy(q.web, most),
    ensures
        bounded(q.after(n), most),
        explored(q, q.after(n), -1),
    decreases n,
{
    if n == 0 {
        let s = q.start();
        let count = q.web.points.len();
        let entry = (q.estimate(s.prev, q.source), q.source);
        law_push_adds(Seq::empty(), entry);
        assert(s.heap.contains(entry));
        assert(queued(s.heap, q.source));
        let far = Seq::new(count, |i: int| FAR);
        lemma_known_far(count);
        lemma_known_update(far, q.source as int, 0);
        assert(known(s.dist) == 1);
        assert((known(s.dist) - 1) * most == 0) by (nonlinear_arith)
            requires
                known(s.dist) == 1,
        ;
    } else {
        let p = (n - 1) as nat;
        let s = q.after(p);
        lemma_after_explored(q, p, most);
        lemma_after(q, p);
        if !q.over(s) {
            let u = s.heap[0].1;
            let next = Search { dist: s.dist, prev: s.prev, heap: popped(s.heap) };
            lemma_popped(q, s);
            lemma_popped_explored(q, s);
            let links = q.web.adj[u as int];
            lemma_expanded_explored(q, next, u, links.len() as int, most);
            assert(links.take(links.len() as int) =~= links);
            let t = q.step(s);
            assert(looked(q, t, u as int, links.len() as int));
            assert forall|x: int| #![trigger t.dist[x]] 0 <= x < q.web.points.len() && x != -1
                && t.dist[x] < FAR implies queued(t.heap, x as usize) || (x != q.target && looked(
                q,
                t,
                x,
                q.web.adj[x].len() as int,
            )) by {}
        }
    }
}

proof fn lemma_known_far(n: nat)
    ensures
        known(Seq::new(n, |i: int| FAR)) == 0,
    decreases n,
{
    let far = Seq::new(n, |i: int| FAR);
    if n > 0 {
        lemma_known_far((n - 1) as nat);
        assert(far.drop_last() =~= Seq::new((n - 1) as nat, |i: int| FAR));
    }
}

/// A walk along edges, each taken from the end that lists it.
pub open spec fn walks(web: Web, a: usize, b: usize, walk: Seq<usize>) -> bool {
    &&& walk.len() > 0 && walk[0] == a && walk.last() == b
    &&& forall|k: int| 0 <= k < walk.len() ==> #[trigger] walk[k] < web.points.len()
    &&& forall|k: int|
        1 <= k < walk.len() ==> leads_to(web.adj[walk[k - 1] as int], #[trigger] walk[k])
}

/// A goal that can be walked to is found, as long as costs cannot overflow.
pub proof fn law_reachable_is_found(q: Quest, walk: Seq<usize>, most: int)
    requires
        q.wf(),
        roomy(q.web, most),
        walks(q.web, q.source, q.target, walk),
    ensures
        q.end().heap.len() > 0,
{
    law_search_ends(q);
    let n = choose|n: nat| q.over(#[trigger] q.after(n));
    let s = q.after(n);
    if s.heap.len() == 0 {
        lemma_after_explored(q, n, most);
        lemma_after(q, n);
        let (stamp, clock) = choose|stamp: Seq<int>, clock: int| holds(q, s, stamp, clock);
        lemma_walk_known(q, s, walk, walk.len() - 1);
        assert(s.dist[q.target as int] < FAR);
        assert(queued(s.heap, q.target));
    }
}

proof fn lemma_walk_known(q: Quest, s: Search, walk: Seq<usize>, k: int)
    requires
        q.wf(),
        s.heap.len() == 0,
        explored(q, s, -1),
        s.dist[q.source as int] < FAR,
        walks(q.web, q.source, q.target, walk),
        0 <= k < walk.len(),
    ensures
        s.dist[walk[k] as int] < FAR,
    decreases k,
{
    if k > 0 {
        lemma_walk_known(q, s, walk, k - 1);
        let u = walk[k - 1] as int;
        assert(walk[k - 1] < q.web.points.len());
        assert(s.dist[u] < FAR);
        assert(!queued(s.heap, u as usize));
        assert(looked(q, s, u, q.web.adj[u].len() as int));
        assert(leads_to(q.web.adj[walk[k - 1] as int], walk[k]));
        let j = choose|j: int|
            0 <= j < q.web.adj[u].len() && (#[trigger] q.web.adj[u][j]).0 == walk[k];
        assert(s.dist[q.web.adj[u][j].0 as int] < FAR);
    }
}

/// The points run from one end to the other, each next to the one before.
pub open spec fn connects(web: Web, start: Point, goal: Point, path: Seq<Point>) -> bool {
    match (slot(web.points, start), slot(web.points, goal)) {
        (Some(s), Some(t)) => exists|trail: Seq<usize>|
            path == points_of(web, trail) && joins_ends(web, s, t, trail),
        _ => false,
    }
}

pub open spec fn joins_ends(web: Web, s: int, t: int, trail: Seq<usize>) -> bool {
    joins(web, s as usize, t as usize, trail)
}

/// A vertex with a known cost has a trail to it from the source.
pub(crate) proof fn lemma_trail(q: Quest, s: Search, stamp: Seq<int>, clock: int, v: usize) -> (trail: Seq<usize>)
    requires
        q.wf(),
        holds(q, s, stamp, clock),
        v < q.web.points.len(),
        s.dist[v as int] < FAR,
    ensures
        is_trail(s.prev, v, trail),
        joins(q.web, q.source, v, trail),
    decreases s.dist[v as int], stamp[v as int],
{
    if v == q.source {
        seq![v]
    } else {
        let p = s.prev[v as int];
        assert(s.dist[p as int] < s.dist[v as int] || (s.dist[p as int] == s.dist[v as int]
            && stamp[p as int] < stamp[v as int]));
        let head = lemma_trail(q, s, stamp, clock, p);
        let trail = head.push(v);
        assert forall|k: int| 1 <= k < trail.len() implies s.prev[(#[trigger] trail[k]) as int]
            == trail[k - 1] && trail[k - 1] != trail[k] && adjacent(
            q.web,
            trail[k - 1],
            trail[k],
        ) by {
            if k < head.len() {
                assert(trail[k] == head[k]);
            }
        }
        assert forall|k: int| 0 <= k < trail.len() implies #[trigger] trail[k]
            < q.web.points.len() by {
            if k < head.len() {
                assert(trail[k] == head[k]);
            }
        }
        trail
    }
}

/// A path that is found runs along edges of the graph from one end to the other.
pub proof fn law_found_connects(web: Web, start: Point, goal: Point, penalty: Single)
    requires
        web.wf(),
        web.nonneg(),
        web.points.len() <= usize::MAX,
        found(web, start, goal, penalty).len() > 0,
    ensures
        connects(web, start, goal, found(web, start, goal, penalty)),
{
    lemma_slot(web.points, start);
    lemma_slot(web.points, goal);
    let s = slot(web.points, start)->Some_0;
    let t = slot(web.points, goal)->Some_0;
    let q = Quest { web, source: s as usize, target: t as usize, penalty };
    law_search_ends(q);
    let n = choose|n: nat| q.over(#[trigger] q.after(n));
    lemma_end(q, n);
    lemma_after(q, n);
    let end = q.end();
    let (stamp, clock) = choose|stamp: Seq<int>, clock: int| holds(q, end, stamp, clock);
    assert(end.heap[0].1 == q.target);
    let trail = lemma_trail(q, end, stamp, clock, q.target);
    lemma_one_trail(end.prev, q.target, trail, trail_to(end.prev, q.target));
    assert(joins_ends(web, s, t, trail));
}

/// A path that connects two points starts at the one and ends at the other.
pub proof fn law_path_ends(web: Web, start: Point, goal: Point, path: Seq<Point>)
    requires
        web.points.len() <= usize::MAX,
        connects(web, start, goal, path),
    ensures
        path.len() > 0,
        path[0] == start,
        path.last() == goal,
{
    lemma_slot(web.points, start);
    lemma_slot(web.points, goal);
    let s = slot(web.points, start)->Some_0;
    let t = slot(web.points, goal)->Some_0;
    let trail = choose|trail: Seq<usize>|
        path == points_of(web, trail) && joins_ends(web, s, t, trail);
    assert(trail[0] == s as usize && trail.last() == t as usize);
    assert(trail[0] < web.points.len() && trail[trail.len() - 1] < web.points.len());
}

/// The cheapest route between two points.
///
/// The estimate is path-dependent: it includes a penalty when arriving at a vertex would turn, and
/// whether it would is judged from the predecessor recorded so far. That makes the estimate
/// inadmissible and the search order significant: no closed set is kept, and a vertex may be
/// expanded again when a cheaper way to it turns up. An edge that does not shorten the way to its
/// far end may shorten the way to the vertex being expanded, in the middle of its expansion.
///
/// Where turns are free, on edges along the axes, no walk costs less than the path: see
/// [`crate::rdl::cheapest::law_found_is_cheapest`].
pub fn shortest_path(
    graph: &Graph,
    start: Point,
    goal: Point,
    turn_penalty: Single,
) -> (path: Vec<Point>)
    requires
        graph.wf(),
        graph@.nonneg(),
    ensures
        path@ == found(graph@, start, goal, turn_penalty),
        path.len() > 0 ==> connects(graph@, start, goal, path@),
{
    let (s, t) = match (graph.find(start), graph.find(goal)) {
        (Some(s), Some(t)) => (s, t),
        _ => {
            return Vec::new();
        },
    };
    let ghost q = Quest { web: graph@, source: s, target: t, penalty: turn_penalty };
    proof {
        lemma_quest(*graph, q);
        lemma_start(q);
    }
    let mut search = Frontier::start(graph, s, t, turn_penalty);
    let ghost mut steps: nat = 0;
    loop
        invariant
            graph.wf(),
            graph@.nonneg(),
            q == (Quest { web: graph@, source: s, target: t, penalty: turn_penalty }),
            q.wf(),
            slot(graph@.points, start) == Some(s as int),
            slot(graph@.points, goal) == Some(t as int),
            sound(q, search@),
            search@ == q.after(steps),
        decreases total(search@.dist), search@.heap.len(),
    {
        let ghost now = search@;
        proof {
            if now.heap.len() > 0 {
                lemma_popped(q, now);
                law_pop_takes_first(now.heap);
            }
            lemma_total_sound(q, now);
        }
        let top = search.heap.pop();
        match top {
            None => {
                proof {
                    lemma_end(q, steps);
                }
                let none: Vec<Point> = Vec::new();
                assert(none@ =~= found(graph@, start, goal, turn_penalty));
                return none;
            },
            Some(entry) => {
                let u: usize = entry.1;
                if u == t {
                    let path = search.trace(graph, s, t, Ghost(turn_penalty));
                    proof {
                        lemma_end(q, steps);
                        let trail = choose|trail: Seq<usize>|
                            is_trail(search@.prev, t, trail) && path@ == points_of(graph@, trail)
                                && joins(graph@, s, t, trail);
                        lemma_one_trail(now.prev, t, trail, trail_to(now.prev, t));
                        assert(joins_ends(graph@, s as int, t as int, trail));
                    }
                    return path;
                }
                search.expand(graph, s, t, turn_penalty, u);
                proof {
                    assert(search@ == q.step(now));
                    steps = steps + 1;
                    lemma_total_sound(q, search@);
                }
            },
        }
    }
}

/// What is reckoned to be left: going straight on it is the distance to the goal, and turning makes it dearer,
/// the more so the longer the leg before the turn. With a penalty of one, and a leg short enough for single
/// precision to hold, it is dearer by the length of that leg.
pub proof fn law_turns_are_dearer(q: Quest, prev: Seq<usize>, v: usize)
    requires
        q.wf(),
        q.penalty.unsigned(),
        v < q.web.points.len(),
        prev.len() == q.web.points.len(),
        prev[v as int] < q.web.points.len(),
        prev[prev[v as int] as int] < q.web.points.len(),
        prev[v as int] != q.source,
        prev[prev[v as int] as int] != q.source,
        prev[v as int] != NONE,
        prev[prev[v as int] as int] != NONE,
    ensures
        ({
            let (at, goal) = (q.web.points[v as int], q.web.points[q.target as int]);
            let corner = q.web.points[prev[v as int] as int];
            let from = q.web.points[prev[prev[v as int] as int] as int];
            let straight = at.0 - corner.0 == corner.0 - from.0 && at.1 - corner.1 == corner.1
                - from.1;
            let left = length(pt(goal), pt(at));
            let leg = length(pt(from), pt(corner));
            &&& straight ==> q.estimate(prev, v) == left
            &&& !straight ==> q.estimate(prev, v) >= left
            &&& !straight && q.penalty == Single::unity() && leg < 0x100_0000 ==> q.estimate(prev, v)
                == left + leg
        }),
{
    let (at, goal) = (q.web.points[v as int], q.web.points[q.target as int]);
    let corner = q.web.points[prev[v as int] as int];
    let from = q.web.points[prev[prev[v as int] as int] as int];
    let leg = length(pt(from), pt(corner));
    crate::rdl::cost::lemma_length_i32(goal, at);
    crate::rdl::cost::lemma_length_i32(from, corner);
    crate::single::lemma_of_int_unsigned(leg);
    crate::single::lemma_unsigned(q.penalty, Single::of_int(leg));
    crate::single::lemma_truncated_unsigned(
        q.penalty.times(Single::of_int(leg)),
        i64::MIN as int,
        i64::MAX as int,
    );
    if q.penalty == Single::unity() && leg < 0x100_0000 {
        crate::single::lemma_one_times_short(leg);
        crate::single::lemma_truncates_to_itself(leg);
    }
}

/// A vertex reached straight from the source, or not reached, is reckoned by its distance to the goal alone.
pub proof fn law_first_legs_are_free(q: Quest, prev: Seq<usize>, v: usize)
    requires
        prev[v as int] == NONE || prev[v as int] == q.source || prev[prev[v as int] as int] == NONE
            || prev[prev[v as int] as int] == q.source,
    ensures
        q.estimate(prev, v) == length(
            pt(q.web.points[q.target as int]),
            pt(q.web.points[v as int]),
        ),
{
    crate::rdl::cost::lemma_length_i32(
        q.web.points[q.target as int],
        q.web.points[v as int],
    );
}

} // verus!
