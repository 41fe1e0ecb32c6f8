//! Taking a routed path out of the graph.

use crate::geom::{
    around, fits_i32, half, halve, meets, pt, touches_rect, widen, wpt, Point, Rect, WidePoint,
};
use crate::lists::{increasing, insert_number, lemma_increasing_unique, lemma_those, those};
use crate::rdl::graft::{graft_of, lemma_removed, take_out, Graft};
use crate::rdl::graph::{leads_to, linked_to, slot, Graph, Record, Undo, Web};
use crate::rdl::obstacle::{meets_ring, touches_ring, wide_ring, wide_ring_of};
use crate::rdl::octagon::{swept, swept_ring};
use vstd::prelude::*;

verus! {

/// How far a committed route keeps others away: half a wire, the spacing, and one unit more, so
/// that neighbours stay a unit clear rather than just touching.
pub open spec fn clearance(width: int, spacing: int) -> int {
    half(width) + spacing + 1
}

/// The corridor a committed route takes out of the graph: the box around each of its vertices.
pub fn commit_corridor(route: &[Point], width: i32, spacing: i32) -> (out: Vec<Rect>)
    requires
        forall|i: int| #![trigger route@[i]]
            0 <= i < route.len() ==> {
                let r = around(pt(route@[i]), clearance(width as int, spacing as int));
                fits_i32(r.0) && fits_i32(r.1) && fits_i32(r.2) && fits_i32(r.3)
            },
    ensures
        out.len() == route.len(),
        forall|i: int|
            0 <= i < out.len() ==> crate::geom::rt(#[trigger] out@[i]) == around(
                pt(route@[i]),
                clearance(width as int, spacing as int),
            ),
{
    let d: i64 = halve(width as i64) + spacing as i64 + 1;
    let mut out: Vec<Rect> = Vec::new();
    let mut i: usize = 0;
    while i < route.len()
        invariant
            i <= route.len(),
            out.len() == i,
            d == clearance(width as int, spacing as int),
            forall|i: int| #![trigger route@[i]]
                0 <= i < route.len() ==> {
                    let r = around(pt(route@[i]), d as int);
                    fits_i32(r.0) && fits_i32(r.1) && fits_i32(r.2) && fits_i32(r.3)
                },
            forall|k: int|
                0 <= k < i ==> crate::geom::rt(#[trigger] out@[k]) == around(
                    pt(route@[k]),
                    d as int,
                ),
        decreases route.len() - i,
    {
        let (x, y) = route[i];
        let (x, y) = (x as i64, y as i64);
        out.push(((x - d) as i32, (y - d) as i32, (x + d) as i32, (y + d) as i32));
        i += 1;
    }
    out
}

/// The vertex is one of the route's.
pub open spec fn on_route(points: Seq<Point>, route: Seq<Point>, v: usize) -> bool {
    exists|k: int| 0 <= k < route.len() && slot(points, #[trigger] route[k]) == Some(v as int)
}

/// The edge from `p` to `q` crosses the corridor.
pub open spec fn in_corridor(route: Seq<Point>, d: int, p: Point, q: Point) -> bool {
    exists|k: int|
        0 <= k < route.len() && meets(pt(p), pt(q), around(pt(#[trigger] route[k]), d))
}

/// The edge from `p` to `q` meets the octagon that the route's segment `i - 1` to `i` sweeps.
pub open spec fn in_swept(route: Seq<Point>, d: int, p: Point, q: Point, i: int) -> bool {
    let (a, b) = (route[i - 1], route[i]);
    a.0 != b.0 && a.1 != b.1 && meets_ring(pt(p), pt(q), swept(pt(a), pt(b), d))
}

/// The edge from `p` to `q` meets an octagon of a slanted segment other than the first.
pub open spec fn in_octagon(route: Seq<Point>, d: int, p: Point, q: Point) -> bool {
    exists|i: int| 2 <= i < route.len() && #[trigger] in_swept(route, d, p, q, i)
}

/// The edge from `a` to the neighbour `b` goes: one of its ends is a vertex of the route, or it
/// crosses the corridor, or, with slanted edges, it meets a slanted segment's octagon.
pub open spec fn doomed(
    web: Web,
    route: Seq<Point>,
    d: int,
    allow45: bool,
    a: usize,
    b: usize,
) -> bool {
    let (p, q) = (web.points[a as int], web.points[b as int]);
    let back = leads_to(web.adj[b as int], a);
    &&& leads_to(web.adj[a as int], b)
    &&& {
        ||| on_route(web.points, route, a)
        ||| in_corridor(route, d, p, q)
        ||| allow45 && in_octagon(route, d, p, q)
        ||| back && on_route(web.points, route, b)
        ||| back && in_corridor(route, d, q, p)
    }
}

/// The neighbours of `a`, none before it, to which an edge goes.
pub open spec fn doomed_row(
    web: Web,
    route: Seq<Point>,
    d: int,
    allow45: bool,
    a: usize,
) -> Seq<usize> {
    those(web.points.len(), |b: usize| b >= a && doomed(web, route, d, allow45, a, b))
}

impl Graft {
    /// The edges of the first `n` vertices that go taken out, in order.
    pub open spec fn swept_out(
        self,
        web: Web,
        route: Seq<Point>,
        d: int,
        allow45: bool,
        n: nat,
    ) -> Graft
        decreases n,
    {
        if n == 0 {
            self
        } else {
            let a = (n - 1) as usize;
            self.swept_out(web, route, d, allow45, (n - 1) as nat).removed_all(
                a,
                doomed_row(web, route, d, allow45, a),
            )
        }
    }
}

/// A route committed: the graph without what it takes out, and the record of that.
pub open spec fn committed(
    web: Web,
    route: Seq<Point>,
    width: int,
    spacing: int,
    allow45: bool,
) -> Graft {
    Graft { web, record: Record { restore: Seq::empty(), cut: Seq::empty() } }.swept_out(
        web,
        route,
        clearance(width, spacing),
        allow45,
        web.points.len(),
    )
}

fn crosses_corridor(route: &[Point], d: i64, p: Point, q: Point) -> (b: bool)
    requires
        -0x2_0000_0000 <= d <= 0x2_0000_0000,
    ensures
        b == in_corridor(route@, d as int, p, q),
{
    let (wp, wq) = (widen(p), widen(q));
    let mut k: usize = 0;
    while k < route.len()
        invariant
            k <= route.len(),
            -0x2_0000_0000 <= d <= 0x2_0000_0000,
            crate::geom::wide_point(wp),
            crate::geom::wide_point(wq),
            wpt(wp) == pt(p),
            wpt(wq) == pt(q),
            forall|m: int|
                0 <= m < k ==> !meets(pt(p), pt(q), around(pt(#[trigger] route@[m]), d as int)),
        decreases route.len() - k,
    {
        let c = widen(route[k]);
        if touches_rect(wp, wq, (c.0 - d, c.1 - d, c.0 + d, c.1 + d)) {
            assert(meets(pt(p), pt(q), around(pt(route@[k as int]), d as int)));
            return true;
        }
        k += 1;
    }
    false
}

/// Which vertices are on the route.
fn mark_route(graph: &Graph, route: &[Point]) -> (marks: Vec<bool>)
    requires
        graph.wf(),
    ensures
        marks.len() == graph@.points.len(),
        forall|v: int|
            0 <= v < marks.len() ==> #[trigger] marks@[v] == on_route(
                graph@.points,
                route@,
                v as usize,
            ),
{
    let n: usize = graph.points.len();
    let mut marks: Vec<bool> = Vec::new();
    let mut i: usize = 0;
    while i < n
        invariant
            i <= n,
            marks.len() == i,
            forall|v: int| 0 <= v < i ==> !#[trigger] marks@[v],
        decreases n - i,
    {
        marks.push(false);
        i += 1;
    }
    let ghost points = graph@.points;
    let mut k: usize = 0;
    while k < route.len()
        invariant
            k <= route.len(),
            graph.wf(),
            points == graph@.points,
            marks.len() == points.len(),
            forall|v: int|
                0 <= v < marks.len() ==> (#[trigger] marks@[v] <==> exists|m: int|
                    0 <= m < k && slot(points, #[trigger] route@[m]) == Some(v)),
        decreases route.len() - k,
    {
        let ghost before = marks@;
        if let Some(v) = graph.find(route[k]) {
            marks.set(v, true);
        }
        assert forall|v: int| 0 <= v < marks.len() implies (#[trigger] marks@[v] <==> exists|m: int|
            0 <= m < k + 1 && slot(points, #[trigger] route@[m]) == Some(v)) by {
            if marks@[v] {
                if before[v] {
                    let m = choose|m: int|
                        0 <= m < k && slot(points, #[trigger] route@[m]) == Some(v);
                    assert(slot(points, route@[m]) == Some(v));
                } else {
                    assert(slot(points, route@[k as int]) == Some(v));
                }
            }
        }
        k += 1;
    }
    marks
}

/// The octagons of the slanted segments other than the first.
fn octagons(route: &[Point], d: i64) -> (rings: Vec<Vec<WidePoint>>)
    requires
        -0x2_0000_0000 <= d <= 0x2_0000_0000,
    ensures
        forall|m: int| 0 <= m < rings.len() ==> wide_ring((#[trigger] rings@[m])@),
        forall|p: Point, q: Point| #[trigger]
            in_octagon(route@, d as int, p, q) <==> any_ring(rings@, p, q),
{
    let mut rings: Vec<Vec<WidePoint>> = Vec::new();
    let mut i: usize = 2;
    while i < route.len()
        invariant
            2 <= i,
            -0x2_0000_0000 <= d <= 0x2_0000_0000,
            forall|m: int| 0 <= m < rings.len() ==> wide_ring((#[trigger] rings@[m])@),
            forall|p: Point, q: Point| #[trigger]
                any_ring(rings@, p, q) <==> exists|k: int|
                    2 <= k < i && k < route.len() && #[trigger] in_swept(route@, d as int, p, q, k),
        decreases route.len() - i,
    {
        let (a, b) = (route[i - 1], route[i]);
        let ghost before = rings@;
        let slanted = a.0 != b.0 && a.1 != b.1;
        if slanted {
            let ring = swept_ring(a, b, d);
            rings.push(ring);
        }
        assert forall|p: Point, q: Point| #[trigger] any_ring(rings@, p, q) <==> exists|k: int|
            2 <= k < i + 1 && k < route.len() && #[trigger] in_swept(
                route@,
                d as int,
                p,
                q,
                k,
            ) by {
            assert(any_ring(before, p, q) <==> exists|k: int|
                2 <= k < i && k < route.len() && #[trigger] in_swept(route@, d as int, p, q, k));
            if any_ring(before, p, q) {
                let m = choose|m: int|
                    0 <= m < before.len() && meets_ring(
                        pt(p),
                        pt(q),
                        wide_ring_of((#[trigger] before[m])@),
                    );
                assert(rings@[m] == before[m]);
            }
            if slanted {
                assert(rings@[before.len() as int]@ == rings@.last()@);
                if in_swept(route@, d as int, p, q, i as int) {
                    assert(meets_ring(
                        pt(p),
                        pt(q),
                        wide_ring_of(rings@[before.len() as int]@),
                    ));
                }
            }
            if any_ring(rings@, p, q) {
                let m = choose|m: int|
                    0 <= m < rings@.len() && meets_ring(
                        pt(p),
                        pt(q),
                        wide_ring_of((#[trigger] rings@[m])@),
                    );
                if m < before.len() {
                    assert(before[m] == rings@[m]);
                    assert(any_ring(before, p, q));
                } else {
                    assert(in_swept(route@, d as int, p, q, i as int));
                }
            }
        }
        i += 1;
    }
    rings
}

/// The edge meets one of the rings.
pub open spec fn any_ring(rings: Seq<Vec<WidePoint>>, p: Point, q: Point) -> bool {
    exists|m: int|
        0 <= m < rings.len() && meets_ring(pt(p), pt(q), wide_ring_of((#[trigger] rings[m])@))
}

fn crosses_rings(rings: &Vec<Vec<WidePoint>>, p: Point, q: Point) -> (b: bool)
    requires
        forall|m: int| 0 <= m < rings.len() ==> wide_ring((#[trigger] rings@[m])@),
    ensures
        b == any_ring(rings@, p, q),
{
    let mut m: usize = 0;
    while m < rings.len()
        invariant
            m <= rings.len(),
            forall|m: int| 0 <= m < rings.len() ==> wide_ring((#[trigger] rings@[m])@),
            forall|k: int|
                0 <= k < m ==> !meets_ring(pt(p), pt(q), wide_ring_of((#[trigger] rings@[k])@)),
        decreases rings.len() - m,
    {
        if touches_ring(widen(p), widen(q), &rings[m]) {
            return true;
        }
        m += 1;
    }
    false
}

/// The neighbours of `a`, none before it, to which an edge goes.
fn row(
    graph: &Graph,
    route: &[Point],
    d: i64,
    allow45: bool,
    marks: &Vec<bool>,
    rings: &Vec<Vec<WidePoint>>,
    a: usize,
) -> (out: Vec<usize>)
    requires
        graph.wf(),
        a < graph@.points.len(),
        -0x2_0000_0000 <= d <= 0x2_0000_0000,
        marks.len() == graph@.points.len(),
        forall|v: int|
            0 <= v < marks.len() ==> #[trigger] marks@[v] == on_route(
                graph@.points,
                route@,
                v as usize,
            ),
        forall|m: int| 0 <= m < rings.len() ==> wide_ring((#[trigger] rings@[m])@),
        allow45 ==> forall|p: Point, q: Point| #[trigger]
            in_octagon(route@, d as int, p, q) <==> any_ring(rings@, p, q),
    ensures
        out@ == doomed_row(graph@, route@, d as int, allow45, a),
        forall|i: int| 0 <= i < out@.len() ==> #[trigger] out@[i] < graph@.points.len(),
{
    let ghost web = graph@;
    let n: usize = graph.points.len();
    let links = &graph.adj[a];
    let p = graph.points[a];
    let ghost cond = |b: usize| b >= a && doomed(web, route@, d as int, allow45, a, b);
    let mut out: Vec<usize> = Vec::new();
    let mut k: usize = 0;
    while k < links.len()
        invariant
            k <= links.len(),
            graph.wf(),
            web == graph@,
            n == web.points.len(),
            a < n,
            links@ == web.adj[a as int],
            p == web.points[a as int],
            -0x2_0000_0000 <= d <= 0x2_0000_0000,
            marks.len() == n,
            forall|v: int|
                0 <= v < marks.len() ==> #[trigger] marks@[v] == on_route(
                    web.points,
                    route@,
                    v as usize,
                ),
            forall|m: int| 0 <= m < rings.len() ==> wide_ring((#[trigger] rings@[m])@),
            allow45 ==> forall|p: Point, q: Point| #[trigger]
                in_octagon(route@, d as int, p, q) <==> any_ring(rings@, p, q),
            cond == (|b: usize| b >= a && doomed(web, route@, d as int, allow45, a, b)),
            increasing(out@),
            forall|b: usize| #[trigger]
                out@.contains(b) <==> cond(b) && (exists|m: int|
                    0 <= m < k && (#[trigger] links@[m]).0 == b),
        decreases links.len() - k,
    {
        let b: usize = links[k].0;
        let ghost before = out@;
        assert(web.adj[a as int][k as int].0 < n);
        assert(leads_to(web.adj[a as int], b));
        if b >= a {
            let q = graph.points[b];
            let goes = marks[a] || crosses_corridor(route, d, p, q) || (allow45 && crosses_rings(
                rings,
                p,
                q,
            )) || (linked_to(&graph.adj[b], a) && (marks[b] || crosses_corridor(route, d, q, p)));
            assert(marks@[a as int] == on_route(web.points, route@, a));
            assert(marks@[b as int] == on_route(web.points, route@, b));
            assert(goes == cond(b));
            if goes {
                insert_number(&mut out, b);
            }
        }
        assert forall|x: usize| #[trigger] out@.contains(x) <==> cond(x) && (exists|m: int|
            0 <= m < k + 1 && (#[trigger] links@[m]).0 == x) by {
            assert(before.contains(x) <==> cond(x) && (exists|m: int|
                0 <= m < k && (#[trigger] links@[m]).0 == x));
            if cond(x) && x == b {
                assert(links@[k as int].0 == x);
            }
        }
        k += 1;
    }
    proof {
        lemma_those(n as nat, cond);
        let want = those(n as nat, cond);
        assert forall|b: usize| #[trigger] out@.contains(b) <==> want.contains(b) by {
            if cond(b) {
                let m = choose|m: int| 0 <= m < links@.len() && (#[trigger] links@[m]).0 == b;
                assert(web.adj[a as int][m].0 < n);
            }
        }
        lemma_increasing_unique(out@, want);
    }
    out
}

/// Take a routed path out of the graph, recording how to put it back.
///
/// Every edge touching a route vertex goes, and so does every edge crossing the route's corridor,
/// with both ends outside it too: testing only the edges of points inside the corridor would leave
/// a wire's neighbours connected straight through it. Under `allow45` a committed slanted segment
/// also takes out what crosses its swept octagon, except that the first segment is never checked.
/// What goes is recorded rather than simply deleted: putting a route back has to restore exactly
/// these edges.
pub fn commit_route(
    graph: &mut Graph,
    route: &[Point],
    width: i32,
    spacing: i32,
    allow45: bool,
) -> (undo: Undo)
    requires
        old(graph).wf(),
    ensures
        final(graph).wf(),
        graft_of(*final(graph), undo) == committed(
            old(graph)@,
            route@,
            width as int,
            spacing as int,
            allow45,
        ),
        final(graph)@.points == old(graph)@.points,
        undo@.within(final(graph)@.points.len() as int),
        old(graph)@.nonneg() ==> final(graph)@.nonneg() && undo@.nonneg(),
{
    let mut undo = Undo::default();
    let ghost web = graph@;
    let ghost start = graft_of(*graph, undo);
    let d: i64 = halve(width as i64) + spacing as i64 + 1;
    let marks = mark_route(graph, route);
    let rings: Vec<Vec<WidePoint>> = if allow45 { octagons(route, d) } else { Vec::new() };
    let n: usize = graph.points.len();
    let mut rows: Vec<Vec<usize>> = Vec::new();
    let mut a: usize = 0;
    while a < n
        invariant
            a <= n,
            n == web.points.len(),
            graph.wf(),
            graph@ == web,
            -0x2_0000_0000 <= d <= 0x2_0000_0000,
            marks.len() == web.points.len(),
            forall|v: int|
                0 <= v < marks.len() ==> #[trigger] marks@[v] == on_route(
                    web.points,
                    route@,
                    v as usize,
                ),
            forall|m: int| 0 <= m < rings.len() ==> wide_ring((#[trigger] rings@[m])@),
            allow45 ==> forall|p: Point, q: Point| #[trigger]
                in_octagon(route@, d as int, p, q) <==> any_ring(rings@, p, q),
            rows.len() == a,
            forall|v: int|
                0 <= v < a ==> (#[trigger] rows@[v])@ == doomed_row(
                    web,
                    route@,
                    d as int,
                    allow45,
                    v as usize,
                ),
        decreases n - a,
    {
        let r = row(graph, route, d, allow45, &marks, &rings, a);
        rows.push(r);
        a += 1;
    }
    a = 0;
    while a < n
        invariant
            a <= n,
            n == web.points.len(),
            graph.wf(),
            web == start.web,
            rows.len() == n,
            forall|v: int|
                0 <= v < n ==> (#[trigger] rows@[v])@ == doomed_row(
                    web,
                    route@,
                    d as int,
                    allow45,
                    v as usize,
                ),
            graft_of(*graph, undo) == start.swept_out(web, route@, d as int, allow45, a as nat),
            graft_of(*graph, undo).wf(),
            graph@.points == web.points,
            start.nonneg() ==> graft_of(*graph, undo).nonneg(),
        decreases n - a,
    {
        let list = &rows[a];
        let ghost s = graft_of(*graph, undo);
        let mut k: usize = 0;
        assert(list@.take(0) =~= Seq::<usize>::empty());
        proof {
            lemma_those(
                web.points.len(),
                |b: usize| b >= a && doomed(web, route@, d as int, allow45, a, b),
            );
            assert(list@ == doomed_row(web, route@, d as int, allow45, a));
        }
        while k < list.len()
            invariant
                k <= list.len(),
                a < n,
                n == web.points.len(),
                graph.wf(),
                graft_of(*graph, undo) == s.removed_all(a, list@.take(k as int)),
                graft_of(*graph, undo).wf(),
                graph@.points == web.points,
                    s.nonneg() ==> graft_of(*graph, undo).nonneg(),
                forall|i: int| 0 <= i < list@.len() ==> #[trigger] list@[i] < n,
            decreases list.len() - k,
        {
            assert(list@.take(k + 1).drop_last() =~= list@.take(k as int));
            let b: usize = list[k];
            proof {
                lemma_removed(graft_of(*graph, undo), a, b);
            }
            take_out(graph, &mut undo, a, b);
            k += 1;
        }
        assert(list@.take(list@.len() as int) =~= list@);
        a += 1;
    }
    undo
}

} // verus!
