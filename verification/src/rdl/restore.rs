//! What a change of the graph and its undoing leave of the graph's edges.

use crate::geom::Point;
use crate::lists::{lemma_those, those};
use crate::rdl::commit::{clearance, committed, doomed, doomed_row, on_route};
use crate::rdl::graft::{between, ends_of, grafted, lemma_attached, lemma_removed, sharp, Graft};
use crate::rdl::graph::{
    leads_to, lemma_joined, lemma_linked, lemma_severed, lemma_slot, lemma_with_vertex,
    nothing_blocked, slot, web_of, weight_to, without, Links, Record, Web,
};
use crate::rdl::grid::Grid;
use crate::single::Single;
use vstd::prelude::*;

verus! {

/// The two pairs are of the same vertices.
pub open spec fn same_pair(a: usize, b: usize, x: usize, y: usize) -> bool {
    (a == x && b == y) || (a == y && b == x)
}

impl Web {
    /// There is an edge from `a` to `b`.
    pub open spec fn edge(self, a: usize, b: usize) -> bool {
        leads_to(self.adj[a as int], b)
    }

    /// Every edge can be taken from either end, and none leads back to where it starts.
    pub open spec fn mutual(self) -> bool {
        forall|a: usize, b: usize|
            #![trigger self.edge(a, b)]
            a < self.points.len() && b < self.points.len() && self.edge(a, b) ==> a != b
                && self.edge(b, a)
    }
}

/// What is left of the neighbours leads to every other vertex that they led to.
proof fn lemma_without_leads(links: Links, b: usize, y: usize)
    ensures
        leads_to(without(links, b), y) <==> leads_to(links, y) && y != b,
    decreases links.len(),
{
    if links.len() > 0 {
        let head = links.drop_last();
        lemma_without_leads(head, b, y);
        let rest = without(head, b);
        let all = without(links, b);
        if leads_to(links, y) && y != b {
            let k = choose|k: int| 0 <= k < links.len() && (#[trigger] links[k]).0 == y;
            if k < head.len() {
                assert(head[k].0 == y);
                let m = choose|m: int| 0 <= m < rest.len() && (#[trigger] rest[m]).0 == y;
                assert(all[m].0 == y);
            } else {
                assert(all[rest.len() as int].0 == y);
            }
        }
        if leads_to(all, y) {
            let m = choose|m: int| 0 <= m < all.len() && (#[trigger] all[m]).0 == y;
            if m < rest.len() {
                assert(rest[m].0 == y);
                let k = choose|k: int| 0 <= k < head.len() && (#[trigger] head[k]).0 == y;
                assert(links[k].0 == y);
            } else {
                assert(links[links.len() - 1].0 == y);
            }
        }
    }
}

proof fn lemma_push_leads(links: Links, b: usize, w: i64, y: usize)
    ensures
        leads_to(links.push((b, w)), y) <==> leads_to(links, y) || y == b,
{
    let more = links.push((b, w));
    if leads_to(links, y) {
        let k = choose|k: int| 0 <= k < links.len() && (#[trigger] links[k]).0 == y;
        assert(more[k].0 == y);
    }
    if y == b {
        assert(more[links.len() as int].0 == y);
    }
    if leads_to(more, y) {
        let k = choose|k: int| 0 <= k < more.len() && (#[trigger] more[k]).0 == y;
        if k < links.len() {
            assert(links[k].0 == y);
        }
    }
}

/// There is a weight where there is an edge.
pub(crate) proof fn lemma_weight_leads(links: Links, y: usize)
    ensures
        weight_to(links, y) is Some <==> leads_to(links, y),
    decreases links.len(),
{
    if links.len() > 0 {
        lemma_weight_leads(links.drop_first(), y);
        if leads_to(links, y) && links[0].0 != y {
            let k = choose|k: int| 0 <= k < links.len() && (#[trigger] links[k]).0 == y;
            assert(links.drop_first()[k - 1].0 == y);
        }
        if leads_to(links.drop_first(), y) {
            let k = choose|k: int|
                0 <= k < links.drop_first().len() && (#[trigger] links.drop_first()[k]).0 == y;
            assert(links[k + 1].0 == y);
        }
    }
}

/// Cutting an edge takes that edge and no other.
pub proof fn law_cut_takes_one(web: Web, a: usize, b: usize, x: usize, y: usize)
    requires
        web.wf(),
        a < web.points.len(),
        b < web.points.len(),
        x < web.points.len(),
    ensures
        web.severed(a, b).edge(x, y) == (web.edge(x, y) && !same_pair(a, b, x, y)),
{
    let one = web.adj.update(a as int, without(web.adj[a as int], b));
    lemma_without_leads(web.adj[a as int], b, y);
    lemma_without_leads(one[b as int], a, y);
}

/// Joining two vertices adds that edge and no other.
pub proof fn law_join_adds_one(web: Web, a: usize, b: usize, w: i64, x: usize, y: usize)
    requires
        web.wf(),
        web.mutual(),
        a < web.points.len(),
        b < web.points.len(),
        x < web.points.len(),
        a != b,
    ensures
        web.joined(a, b, w).edge(x, y) == (web.edge(x, y) || same_pair(a, b, x, y)),
{
    if web.edge(a, b) {
        assert(web.edge(b, a));
    } else {
        lemma_push_leads(web.adj[a as int], b, w, y);
        lemma_push_leads(web.adj[b as int], a, w, y);
    }
}

/// Cutting keeps edges mutual.
proof fn lemma_cut_mutual(web: Web, a: usize, b: usize)
    requires
        web.wf(),
        web.mutual(),
        a < web.points.len(),
        b < web.points.len(),
    ensures
        web.severed(a, b).mutual(),
{
    let after = web.severed(a, b);
    assert forall|x: usize, y: usize|
        #![trigger after.edge(x, y)]
        x < after.points.len() && y < after.points.len() && after.edge(x, y) implies x != y
        && after.edge(y, x) by {
        law_cut_takes_one(web, a, b, x, y);
        law_cut_takes_one(web, a, b, y, x);
        assert(web.edge(x, y));
    }
}

/// Joining keeps edges mutual.
proof fn lemma_join_mutual(web: Web, a: usize, b: usize, w: i64)
    requires
        web.wf(),
        web.mutual(),
        a < web.points.len(),
        b < web.points.len(),
    ensures
        web.joined(a, b, w).mutual(),
{
    if a != b {
        let after = web.joined(a, b, w);
        assert forall|x: usize, y: usize|
            #![trigger after.edge(x, y)]
            x < after.points.len() && y < after.points.len() && after.edge(x, y) implies x != y
            && after.edge(y, x) by {
            law_join_adds_one(web, a, b, w, x, y);
            law_join_adds_one(web, a, b, w, y, x);
            if web.edge(x, y) {
                assert(web.edge(y, x));
            }
        }
    }
}

/// A graph built from a grid and edges between two points each has every edge from either end.
pub proof fn law_built_is_mutual(g: Grid, edges: Seq<(Point, Point)>, scale: Single)
    requires
        forall|i: int| 0 <= i < edges.len() ==> (#[trigger] edges[i]).0 != edges[i].1,
        web_of(g, Seq::empty(), scale).points.len() <= usize::MAX,
    ensures
        web_of(g, edges, scale).wf(),
        web_of(g, edges, scale).mutual(),
{
    let points = crate::rdl::grid::crossings(g.x@, g.y@);
    let bare = Web { points, adj: Seq::new(points.len(), |i: int| Seq::empty()) };
    assert(web_of(g, Seq::empty(), scale) == bare);
    lemma_with_edges_mutual(bare, edges, scale);
}

proof fn lemma_with_edges_mutual(web: Web, edges: Seq<(Point, Point)>, scale: Single)
    requires
        web.wf(),
        web.mutual(),
        web.points.len() <= usize::MAX,
        forall|i: int| 0 <= i < edges.len() ==> (#[trigger] edges[i]).0 != edges[i].1,
    ensures
        web.with_edges(edges, scale).wf(),
        web.with_edges(edges, scale).mutual(),
        web.with_edges(edges, scale).points == web.points,
    decreases edges.len(),
{
    if edges.len() > 0 {
        let head = edges.drop_last();
        assert forall|i: int| 0 <= i < head.len() implies (#[trigger] head[i]).0 != head[i].1 by {
            assert(edges[i] == head[i]);
        }
        lemma_with_edges_mutual(web, head, scale);
        let before = web.with_edges(head, scale);
        let after = web.with_edges(edges, scale);
        let (a, b) = edges.last();
        assert(edges[edges.len() - 1] == edges.last());
        lemma_slot(web.points, a);
        lemma_slot(web.points, b);
        if let (Some(i), Some(j)) = (slot(web.points, a), slot(web.points, b)) {
            let (u, v) = (i as usize, j as usize);
            let w = crate::rdl::cost::weight(crate::geom::pt(a), crate::geom::pt(b), scale) as i64;
            lemma_linked(before, u, v, w);
            assert forall|x: usize, y: usize|
                #![trigger after.edge(x, y)]
                x < after.points.len() && y < after.points.len() && after.edge(x, y) implies x != y
                && after.edge(y, x) by {
                lemma_push_leads(before.adj[u as int], v, w, y);
                lemma_push_leads(before.adj[v as int], u, w, y);
                lemma_push_leads(before.adj[u as int], v, w, x);
                lemma_push_leads(before.adj[v as int], u, w, x);
                if before.edge(x, y) {
                    assert(before.edge(y, x));
                }
            }
        }
    }
}

/// An edge is listed to be put back, and is not blocked.
pub open spec fn listed(
    list: Seq<(usize, usize, Single)>,
    points: Seq<Point>,
    blocked: spec_fn(Point, Point) -> bool,
    x: usize,
    y: usize,
) -> bool {
    exists|i: int|
        0 <= i < list.len() && same_pair((#[trigger] list[i]).0, list[i].1, x, y) && !blocked(
            points[list[i].0 as int],
            points[list[i].1 as int],
        )
}

/// The list speaks of edges between two vertices each, among the first `n`.
pub open spec fn of_pairs(list: Seq<(usize, usize, Single)>, n: int) -> bool {
    forall|i: int|
        0 <= i < list.len() ==> (#[trigger] list[i]).0 < n && list[i].1 < n && list[i].0
            != list[i].1
}

/// Putting edges back adds those that are listed and not blocked, and no others: one that has come to
/// conflict is not restored.
pub proof fn law_restored_unless_blocked(
    web: Web,
    list: Seq<(usize, usize, Single)>,
    blocked: spec_fn(Point, Point) -> bool,
    x: usize,
    y: usize,
)
    requires
        web.wf(),
        web.mutual(),
        of_pairs(list, web.points.len() as int),
        x < web.points.len(),
    ensures
        web.restored(list, blocked).edge(x, y) == (web.edge(x, y) || listed(
            list,
            web.points,
            blocked,
            x,
            y,
        )),
{
    lemma_restored_edges(web, list, blocked);
    assert(web.restored(list, blocked).edge(x, y) == (web.edge(x, y) || listed(
        list,
        web.points,
        blocked,
        x,
        y,
    )));
}

pub(crate) proof fn lemma_restored_edges(
    web: Web,
    list: Seq<(usize, usize, Single)>,
    blocked: spec_fn(Point, Point) -> bool,
)
    requires
        web.wf(),
        web.mutual(),
        of_pairs(list, web.points.len() as int),
    ensures
        ({
            let after = web.restored(list, blocked);
            &&& after.wf() && after.mutual() && after.points == web.points
            &&& forall|x: usize, y: usize|
                #![trigger after.edge(x, y)]
                x < web.points.len() ==> after.edge(x, y) == (web.edge(x, y) || listed(
                    list,
                    web.points,
                    blocked,
                    x,
                    y,
                ))
        }),
    decreases list.len(),
{
    let after = web.restored(list, blocked);
    if list.len() > 0 {
        let head = list.drop_last();
        assert(of_pairs(head, web.points.len() as int)) by {
            assert forall|i: int| 0 <= i < head.len() implies (#[trigger] head[i]).0
                < web.points.len() && head[i].1 < web.points.len() && head[i].0 != head[i].1 by {
                assert(list[i] == head[i]);
            }
        }
        lemma_restored_edges(web, head, blocked);
        let before = web.restored(head, blocked);
        let last = list.len() - 1;
        let (a, b, scale) = list.last();
        assert(list[last] == list.last());
        let (p, q) = (web.points[a as int], web.points[b as int]);
        let w = crate::rdl::cost::weight(crate::geom::pt(p), crate::geom::pt(q), scale) as i64;
        if !blocked(p, q) {
            lemma_joined(before, a, b, w);
            lemma_join_mutual(before, a, b, w);
        }
        assert forall|x: usize, y: usize|
            #![trigger after.edge(x, y)]
            x < web.points.len() implies after.edge(x, y) == (web.edge(x, y) || listed(
            list,
            web.points,
            blocked,
            x,
            y,
        )) by {
            assert(before.edge(x, y) == (web.edge(x, y) || listed(
                head,
                web.points,
                blocked,
                x,
                y,
            )));
            if !blocked(p, q) {
                law_join_adds_one(before, a, b, w, x, y);
            }
            if listed(head, web.points, blocked, x, y) {
                let i = choose|i: int|
                    0 <= i < head.len() && same_pair((#[trigger] head[i]).0, head[i].1, x, y)
                        && !blocked(
                        web.points[head[i].0 as int],
                        web.points[head[i].1 as int],
                    );
                assert(list[i] == head[i]);
            }
            if listed(list, web.points, blocked, x, y) {
                let i = choose|i: int|
                    0 <= i < list.len() && same_pair((#[trigger] list[i]).0, list[i].1, x, y)
                        && !blocked(
                        web.points[list[i].0 as int],
                        web.points[list[i].1 as int],
                    );
                if i < head.len() {
                    assert(head[i] == list[i]);
                }
            }
            if same_pair(a, b, x, y) && !blocked(p, q) {
                assert(listed(list, web.points, blocked, x, y));
            }
        }
    }
}

/// A graft that only ever took edges out of `web`: what it took is what its record lists, and the
/// record cuts nothing.
pub open spec fn took_out(s: Graft, web: Web) -> bool {
    &&& s.web.wf() && s.web.mutual() && s.web.points == web.points
    &&& s.record.cut.len() == 0
    &&& s.record.within(web.points.len() as int)
    &&& of_pairs(s.record.restore, web.points.len() as int)
    &&& forall|x: usize, y: usize|
        #![trigger s.web.edge(x, y)]
        #![trigger web.edge(x, y)]
        x < web.points.len() && y < web.points.len() ==> web.edge(x, y) == (s.web.edge(x, y)
            || listed(s.record.restore, web.points, nothing_blocked(), x, y))
}

pub(crate) proof fn lemma_took_one(s: Graft, web: Web, a: usize, b: usize)
    requires
        took_out(s, web),
        a < web.points.len(),
        b < web.points.len(),
    ensures
        took_out(s.removed(a, b), web),
{
    let t = s.removed(a, b);
    let (had, has) = (s.record.restore, t.record.restore);
    lemma_removed(s, a, b);
    lemma_weight_leads(s.web.adj[a as int], b);
    lemma_cut_mutual(s.web, a, b);
    if s.web.edge(a, b) {
        assert(a != b);
        assert(has.last().0 == a && has.last().1 == b);
        assert(has.drop_last() =~= had);
    }
    assert forall|x: usize, y: usize|
        #![trigger t.web.edge(x, y)]
        #![trigger web.edge(x, y)]
        x < web.points.len() && y < web.points.len() implies web.edge(x, y) == (t.web.edge(x, y)
        || listed(has, web.points, nothing_blocked(), x, y)) by {
        law_cut_takes_one(s.web, a, b, x, y);
        assert(web.edge(x, y) == (s.web.edge(x, y) || listed(
            had,
            web.points,
            nothing_blocked(),
            x,
            y,
        )));
        assert(s.web.edge(b, a) ==> s.web.edge(a, b));
        if listed(had, web.points, nothing_blocked(), x, y) {
            let i = choose|i: int|
                0 <= i < had.len() && same_pair((#[trigger] had[i]).0, had[i].1, x, y)
                    && !nothing_blocked()(
                    web.points[had[i].0 as int],
                    web.points[had[i].1 as int],
                );
            assert(has[i] == had[i]);
        }
        if listed(has, web.points, nothing_blocked(), x, y) {
            let i = choose|i: int|
                0 <= i < has.len() && same_pair((#[trigger] has[i]).0, has[i].1, x, y)
                    && !nothing_blocked()(
                    web.points[has[i].0 as int],
                    web.points[has[i].1 as int],
                );
            if i < had.len() {
                assert(had[i] == has[i]);
            }
        }
        if same_pair(a, b, x, y) && s.web.edge(x, y) {
            assert(s.web.edge(a, b));
            let i = has.len() - 1;
            assert(same_pair(has[i].0, has[i].1, x, y));
        }
    }
}

proof fn lemma_took_row(s: Graft, web: Web, a: usize, list: Seq<usize>)
    requires
        took_out(s, web),
        a < web.points.len(),
        forall|i: int| 0 <= i < list.len() ==> #[trigger] list[i] < web.points.len(),
    ensures
        took_out(s.removed_all(a, list), web),
    decreases list.len(),
{
    if list.len() > 0 {
        let head = list.drop_last();
        assert forall|i: int| 0 <= i < head.len() implies #[trigger] head[i]
            < web.points.len() by {
            assert(list[i] == head[i]);
        }
        lemma_took_row(s, web, a, head);
        assert(list[list.len() - 1] < web.points.len());
        lemma_took_one(s.removed_all(a, head), web, a, list.last());
    }
}

pub(crate) proof fn lemma_took_rows(
    s: Graft,
    web: Web,
    route: Seq<Point>,
    d: int,
    allow45: bool,
    n: nat,
)
    requires
        took_out(s, web),
        n <= web.points.len() <= usize::MAX,
    ensures
        took_out(s.swept_out(web, route, d, allow45, n), web),
    decreases n,
{
    if n > 0 {
        let a = (n - 1) as usize;
        lemma_took_rows(s, web, route, d, allow45, (n - 1) as nat);
        let cond = |b: usize| b >= a && doomed(web, route, d, allow45, a, b);
        lemma_those(web.points.len(), cond);
        let row = doomed_row(web, route, d, allow45, a);
        assert(row == those(web.points.len(), cond));
        lemma_took_row(s.swept_out(web, route, d, allow45, (n - 1) as nat), web, a, row);
    }
}

/// Ripping a route up restores exactly the edges that committing it took: the graph has the edges it
/// had before, and no others.
pub proof fn law_rip_up_restores(
    web: Web,
    route: Seq<Point>,
    width: int,
    spacing: int,
    allow45: bool,
    x: usize,
    y: usize,
)
    requires
        web.wf(),
        web.mutual(),
        web.points.len() <= usize::MAX,
        x < web.points.len(),
        y < web.points.len(),
    ensures
        ({
            let c = committed(web, route, width, spacing, allow45);
            c.web.undone(c.record, nothing_blocked()).edge(x, y) == web.edge(x, y)
        }),
{
    let start = Graft { web, record: Record { restore: Seq::empty(), cut: Seq::empty() } };
    assert(took_out(start, web));
    lemma_took_rows(start, web, route, clearance(width, spacing), allow45, web.points.len());
    let c = committed(web, route, width, spacing, allow45);
    assert(c.web.cut_all(c.record.cut) == c.web);
    lemma_restored_edges(c.web, c.record.restore, nothing_blocked());
    let after = c.web.restored(c.record.restore, nothing_blocked());
    assert(after.edge(x, y) == (c.web.edge(x, y) || listed(
        c.record.restore,
        web.points,
        nothing_blocked(),
        x,
        y,
    )));
    assert(web.edge(x, y) == (c.web.edge(x, y) || listed(
        c.record.restore,
        web.points,
        nothing_blocked(),
        x,
        y,
    )));
}

/// The edges that are left once those from `a` to the listed vertices are taken out.
proof fn lemma_row_edges(s: Graft, a: usize, list: Seq<usize>, x: usize, y: usize)
    requires
        s.wf(),
        a < s.web.points.len(),
        x < s.web.points.len(),
        forall|i: int| 0 <= i < list.len() ==> #[trigger] list[i] < s.web.points.len(),
    ensures
        s.removed_all(a, list).wf(),
        s.removed_all(a, list).web.points == s.web.points,
        s.removed_all(a, list).web.edge(x, y) == (s.web.edge(x, y) && !(list.contains(x) && y == a)
            && !(list.contains(y) && x == a)),
    decreases list.len(),
{
    if list.len() > 0 {
        let head = list.drop_last();
        let b = list.last();
        assert forall|i: int| 0 <= i < head.len() implies #[trigger] head[i]
            < s.web.points.len() by {
            assert(list[i] == head[i]);
        }
        lemma_row_edges(s, a, head, x, y);
        assert(list[list.len() - 1] == b);
        lemma_removed(s.removed_all(a, head), a, b);
        law_cut_takes_one(s.removed_all(a, head).web, a, b, x, y);
        assert(list =~= head.push(b));
        crate::lists::lemma_push_contains(head, b, x);
        crate::lists::lemma_push_contains(head, b, y);
    }
}

proof fn lemma_swept_edges(
    web: Web,
    route: Seq<Point>,
    d: int,
    allow45: bool,
    n: nat,
    a: usize,
    b: usize,
)
    requires
        web.wf(),
        n <= web.points.len() <= usize::MAX,
        a <= b < web.points.len(),
    ensures
        ({
            let start = Graft { web, record: Record { restore: Seq::empty(), cut: Seq::empty() } };
            let s = start.swept_out(web, route, d, allow45, n);
            &&& s.wf() && s.web.points == web.points
            &&& s.web.edge(a, b) == (web.edge(a, b) && !(a < n && doomed(
                web,
                route,
                d,
                allow45,
                a,
                b,
            )))
            &&& s.web.edge(b, a) == (web.edge(b, a) && !(a < n && doomed(
                web,
                route,
                d,
                allow45,
                a,
                b,
            )))
        }),
    decreases n,
{
    if n > 0 {
        let c = (n - 1) as usize;
        let start = Graft { web, record: Record { restore: Seq::empty(), cut: Seq::empty() } };
        let s = start.swept_out(web, route, d, allow45, (n - 1) as nat);
        lemma_swept_edges(web, route, d, allow45, (n - 1) as nat, a, b);
        let cond = |b: usize| b >= c && doomed(web, route, d, allow45, c, b);
        lemma_those(web.points.len(), cond);
        let row = doomed_row(web, route, d, allow45, c);
        assert(row == those(web.points.len(), cond));
        lemma_row_edges(s, c, row, a, b);
        lemma_row_edges(s, c, row, b, a);
        assert(row.contains(a) <==> a < web.points.len() && cond(a));
        assert(row.contains(b) <==> b < web.points.len() && cond(b));
    }
}

/// A committed route takes out exactly what lies in its way: between two vertices, in their order, an
/// edge is left if it was there and neither touches a vertex of the route nor crosses its corridor
/// nor, with slanted edges, an octagon that a slanted segment sweeps.
pub proof fn law_corridor_is_cleared(
    web: Web,
    route: Seq<Point>,
    width: int,
    spacing: int,
    allow45: bool,
    a: usize,
    b: usize,
)
    requires
        web.wf(),
        web.points.len() <= usize::MAX,
        a <= b < web.points.len(),
    ensures
        committed(web, route, width, spacing, allow45).web.edge(a, b) <==> web.edge(a, b)
            && !doomed(web, route, clearance(width, spacing), allow45, a, b),
        committed(web, route, width, spacing, allow45).web.edge(b, a) <==> web.edge(b, a)
            && !doomed(web, route, clearance(width, spacing), allow45, a, b),
{
    lemma_swept_edges(
        web,
        route,
        clearance(width, spacing),
        allow45,
        web.points.len(),
        a,
        b,
    );
}

/// No edge that is left touches a vertex of a committed route.
pub proof fn law_route_is_cut_off(
    web: Web,
    route: Seq<Point>,
    width: int,
    spacing: int,
    allow45: bool,
    a: usize,
    b: usize,
)
    requires
        web.wf(),
        web.mutual(),
        web.points.len() <= usize::MAX,
        a < web.points.len(),
        b < web.points.len(),
        committed(web, route, width, spacing, allow45).web.edge(a, b),
    ensures
        !on_route(web.points, route, a),
        !on_route(web.points, route, b),
{
    if a <= b {
        law_corridor_is_cleared(web, route, width, spacing, allow45, a, b);
        assert(web.edge(a, b));
    } else {
        law_corridor_is_cleared(web, route, width, spacing, allow45, b, a);
        assert(web.edge(a, b));
    }
}

/// The edges of the vertices that were there first are still there, or listed to be put back; what is
/// listed to be cut starts at a vertex that came later.
spec fn borrowed(s: Graft, web: Web) -> bool {
    let n = web.points.len();
    &&& s.wf() && s.web.mutual() && web.points.is_prefix_of(s.web.points)
    &&& of_pairs(s.record.restore, s.web.points.len() as int)
    &&& forall|i: int| 0 <= i < s.record.cut.len() ==> (#[trigger] s.record.cut[i]).0 >= n
    &&& forall|x: usize, y: usize|
        #![trigger s.web.edge(x, y)]
        #![trigger web.edge(x, y)]
        x < n && y < n ==> web.edge(x, y) == (s.web.edge(x, y) || listed(
            s.record.restore,
            s.web.points,
            nothing_blocked(),
            x,
            y,
        ))
}

/// One more edge in a list.
pub(crate) proof fn lemma_listed_push(
    list: Seq<(usize, usize, Single)>,
    last: (usize, usize, Single),
    points: Seq<Point>,
    x: usize,
    y: usize,
)
    ensures
        listed(list.push(last), points, nothing_blocked(), x, y) <==> listed(
            list,
            points,
            nothing_blocked(),
            x,
            y,
        ) || same_pair(last.0, last.1, x, y),
{
    let more = list.push(last);
    if listed(list, points, nothing_blocked(), x, y) {
        let i = choose|i: int|
            0 <= i < list.len() && same_pair((#[trigger] list[i]).0, list[i].1, x, y)
                && !nothing_blocked()(
                points[list[i].0 as int],
                points[list[i].1 as int],
            );
        assert(more[i] == list[i]);
    }
    if same_pair(last.0, last.1, x, y) {
        let i = list.len() as int;
        assert(same_pair(more[i].0, more[i].1, x, y));
    }
    if listed(more, points, nothing_blocked(), x, y) {
        let i = choose|i: int|
            0 <= i < more.len() && same_pair((#[trigger] more[i]).0, more[i].1, x, y)
                && !nothing_blocked()(
                points[more[i].0 as int],
                points[more[i].1 as int],
            );
        if i < list.len() {
            assert(list[i] == more[i]);
        }
    }
}

proof fn lemma_borrowed_removed(s: Graft, web: Web, a: usize, b: usize)
    requires
        borrowed(s, web),
        a < s.web.points.len(),
        b < s.web.points.len(),
    ensures
        borrowed(s.removed(a, b), web),
        s.removed(a, b).web.points == s.web.points,
{
    let t = s.removed(a, b);
    let (had, has) = (s.record.restore, t.record.restore);
    lemma_removed(s, a, b);
    lemma_weight_leads(s.web.adj[a as int], b);
    lemma_cut_mutual(s.web, a, b);
    if s.web.edge(a, b) {
        assert(a != b);
        assert(has.drop_last() =~= had);
        assert(has =~= had.push(has.last()));
    }
    assert forall|x: usize, y: usize|
        #![trigger t.web.edge(x, y)]
        #![trigger web.edge(x, y)]
        x < web.points.len() && y < web.points.len() implies web.edge(x, y) == (t.web.edge(x, y)
        || listed(has, t.web.points, nothing_blocked(), x, y)) by {
        law_cut_takes_one(s.web, a, b, x, y);
        assert(web.edge(x, y) == (s.web.edge(x, y) || listed(
            had,
            s.web.points,
            nothing_blocked(),
            x,
            y,
        )));
        assert(s.web.edge(b, a) ==> s.web.edge(a, b));
        if s.web.edge(a, b) {
            lemma_listed_push(had, has.last(), s.web.points, x, y);
            assert(s.web.edge(x, y) ==> s.web.edge(y, x));
        }
    }
}

proof fn lemma_borrowed_attached(s: Graft, web: Web, a: usize, b: usize)
    requires
        borrowed(s, web),
        web.points.len() <= a < s.web.points.len(),
        b < s.web.points.len(),
    ensures
        borrowed(s.attached(a, b), web),
        s.attached(a, b).web.points == s.web.points,
{
    let t = s.attached(a, b);
    lemma_attached(s, a, b);
    let w = crate::rdl::cost::weight(
        crate::geom::pt(s.web.points[a as int]),
        crate::geom::pt(s.web.points[b as int]),
        Single::unity(),
    ) as i64;
    lemma_join_mutual(s.web, a, b, w);
    assert forall|i: int| 0 <= i < t.record.cut.len() implies (#[trigger] t.record.cut[i]).0
        >= web.points.len() by {
        if i < s.record.cut.len() {
            assert(t.record.cut[i] == s.record.cut[i]);
        }
    }
    assert forall|x: usize, y: usize|
        #![trigger t.web.edge(x, y)]
        #![trigger web.edge(x, y)]
        x < web.points.len() && y < web.points.len() implies web.edge(x, y) == (t.web.edge(x, y)
        || listed(t.record.restore, t.web.points, nothing_blocked(), x, y)) by {
        assert(web.edge(x, y) == (s.web.edge(x, y) || listed(
            s.record.restore,
            s.web.points,
            nothing_blocked(),
            x,
            y,
        )));
        if a != b {
            law_join_adds_one(s.web, a, b, w, x, y);
        }
    }
}

proof fn lemma_borrowed_vertex(s: Graft, web: Web, p: Point)
    requires
        borrowed(s, web),
        s.web.points.len() < usize::MAX,
    ensures
        borrowed(s.with_vertex(p), web),
        s.with_vertex(p).web.points.len() <= s.web.points.len() + 1,
        0 <= s.web.vertex_of(p) < s.with_vertex(p).web.points.len(),
        s.with_vertex(p).web.points[s.web.vertex_of(p)] == p,
        s.web.points.is_prefix_of(s.with_vertex(p).web.points),
{
    let t = s.with_vertex(p);
    lemma_slot(s.web.points, p);
    lemma_with_vertex(s.web, p);
    if slot(s.web.points, p) is None {
        assert forall|x: usize, y: usize|
            #![trigger t.web.edge(x, y)]
            x < t.web.points.len() && y < t.web.points.len() && t.web.edge(x, y) implies x != y
            && t.web.edge(y, x) by {
            if x < s.web.points.len() {
                assert(s.web.edge(x, y));
                let k = choose|k: int|
                    0 <= k < s.web.adj[x as int].len() && (#[trigger] s.web.adj[x as int][k]).0
                        == y;
                assert(y < s.web.points.len());
                assert(s.web.edge(y, x));
            }
        }
        assert forall|x: usize, y: usize|
            #![trigger t.web.edge(x, y)]
            #![trigger web.edge(x, y)]
            x < web.points.len() && y < web.points.len() implies web.edge(x, y) == (t.web.edge(
            x,
            y,
        ) || listed(t.record.restore, t.web.points, nothing_blocked(), x, y)) by {
            assert(s.web.edge(x, y) == t.web.edge(x, y));
            assert(listed(s.record.restore, s.web.points, nothing_blocked(), x, y) == listed(
                s.record.restore,
                t.web.points,
                nothing_blocked(),
                x,
                y,
            )) by {
                lemma_listed_anywhere(s.record.restore, s.web.points, t.web.points, x, y);
            }
        }
    }
}

/// Where nothing is blocked, it does not matter where the vertices are.
proof fn lemma_listed_anywhere(
    list: Seq<(usize, usize, Single)>,
    p: Seq<Point>,
    q: Seq<Point>,
    x: usize,
    y: usize,
)
    ensures
        listed(list, p, nothing_blocked(), x, y) == listed(list, q, nothing_blocked(), x, y),
{
    if listed(list, p, nothing_blocked(), x, y) {
        let i = choose|i: int|
            0 <= i < list.len() && same_pair((#[trigger] list[i]).0, list[i].1, x, y)
                && !nothing_blocked()(p[list[i].0 as int], p[list[i].1 as int]);
        assert(same_pair(list[i].0, list[i].1, x, y) && !nothing_blocked()(
            q[list[i].0 as int],
            q[list[i].1 as int],
        ));
    }
    if listed(list, q, nothing_blocked(), x, y) {
        let i = choose|i: int|
            0 <= i < list.len() && same_pair((#[trigger] list[i]).0, list[i].1, x, y)
                && !nothing_blocked()(q[list[i].0 as int], q[list[i].1 as int]);
        assert(same_pair(list[i].0, list[i].1, x, y) && !nothing_blocked()(
            p[list[i].0 as int],
            p[list[i].1 as int],
        ));
    }
}

proof fn lemma_borrowed_row(s: Graft, web: Web, e: usize, list: Seq<usize>)
    requires
        borrowed(s, web),
        e < s.web.points.len(),
        forall|i: int| 0 <= i < list.len() ==> #[trigger] list[i] < s.web.points.len(),
    ensures
        borrowed(s.removed_all(e, list), web),
        s.removed_all(e, list).web.points == s.web.points,
    decreases list.len(),
{
    if list.len() > 0 {
        let head = list.drop_last();
        assert forall|i: int| 0 <= i < head.len() implies #[trigger] head[i]
            < s.web.points.len() by {
            assert(list[i] == head[i]);
        }
        lemma_borrowed_row(s, web, e, head);
        assert(list[list.len() - 1] < s.web.points.len());
        lemma_borrowed_removed(s.removed_all(e, head), web, e, list.last());
    }
}

/// What turns too sharply is among the neighbours.
proof fn lemma_sharp_within(web: Web, links: Links, e: usize, snap: Point, n: int)
    requires
        forall|i: int| 0 <= i < links.len() ==> (#[trigger] links[i]).0 < n,
    ensures
        forall|i: int|
            0 <= i < sharp(web, links, e, snap).len() ==> (#[trigger] sharp(
                web,
                links,
                e,
                snap,
            )[i]) < n,
    decreases links.len(),
{
    if links.len() > 0 {
        let head = links.drop_last();
        assert forall|i: int| 0 <= i < head.len() implies (#[trigger] head[i]).0 < n by {
            assert(links[i] == head[i]);
        }
        lemma_sharp_within(web, head, e, snap, n);
        assert(links[links.len() - 1].0 < n);
        let (rest, all) = (sharp(web, head, e, snap), sharp(web, links, e, snap));
        assert forall|i: int| 0 <= i < all.len() implies (#[trigger] all[i]) < n by {
            if i < rest.len() {
                assert(all[i] == rest[i]);
            }
        }
    }
}

proof fn lemma_borrowed_reached(
    s: Graft,
    web: Web,
    sv: usize,
    e: usize,
    allow45: bool,
    blocked: spec_fn(Point, Point) -> bool,
)
    requires
        borrowed(s, web),
        web.points.len() <= sv < s.web.points.len(),
        e < s.web.points.len(),
    ensures
        borrowed(s.reached(sv, e, allow45, blocked), web),
        s.reached(sv, e, allow45, blocked).web.points == s.web.points,
{
    let snap = s.web.points[sv as int];
    if !blocked(snap, s.web.points[e as int]) {
        lemma_borrowed_attached(s, web, sv, e);
        let on = s.attached(sv, e);
        let links = on.web.adj[e as int];
        assert forall|i: int| 0 <= i < links.len() implies (#[trigger] links[i]).0
            < on.web.points.len() by {
            assert(on.web.adj[e as int][i].0 < on.web.points.len());
        }
        lemma_sharp_within(on.web, links, e, snap, on.web.points.len() as int);
        lemma_borrowed_row(on, web, e, sharp(on.web, links, e, snap));
    }
}

proof fn lemma_borrowed_reached_all(
    s: Graft,
    web: Web,
    sv: usize,
    ends: Seq<usize>,
    allow45: bool,
    blocked: spec_fn(Point, Point) -> bool,
)
    requires
        borrowed(s, web),
        web.points.len() <= sv < s.web.points.len(),
        forall|i: int| 0 <= i < ends.len() ==> #[trigger] ends[i] < s.web.points.len(),
    ensures
        borrowed(s.reached_all(sv, ends, allow45, blocked), web),
        s.reached_all(sv, ends, allow45, blocked).web.points == s.web.points,
    decreases ends.len(),
{
    if ends.len() > 0 {
        let head = ends.drop_last();
        assert forall|i: int| 0 <= i < head.len() implies #[trigger] head[i]
            < s.web.points.len() by {
            assert(ends[i] == head[i]);
        }
        lemma_borrowed_reached_all(s, web, sv, head, allow45, blocked);
        assert(ends[ends.len() - 1] < s.web.points.len());
        lemma_borrowed_reached(
            s.reached_all(sv, head, allow45, blocked),
            web,
            sv,
            ends.last(),
            allow45,
            blocked,
        );
    }
}

/// The vertices on either side of a snap point are vertices.
proof fn lemma_ends_within(g: Grid, points: Seq<Point>, snap: Point)
    requires
        points.len() <= usize::MAX,
    ensures
        forall|i: int|
            0 <= i < ends_of(g, points, snap).len() ==> (#[trigger] ends_of(g, points, snap)[i])
                < points.len(),
{
    let (a, b) = between(g, snap);
    if let Some(p) = a {
        lemma_slot(points, p);
    }
    if let Some(q) = b {
        lemma_slot(points, q);
    }
}

proof fn lemma_borrowed_snapped(
    s: Graft,
    web: Web,
    g: Grid,
    c: usize,
    snap: Point,
    allow45: bool,
    blocked: spec_fn(Point, Point) -> bool,
)
    requires
        borrowed(s, web),
        s.web.points.len() < usize::MAX,
        c < s.web.points.len(),
        !web.points.contains(snap),
    ensures
        borrowed(s.snapped(g, c, snap, allow45, blocked), web),
        s.web.points.len() <= s.snapped(g, c, snap, allow45, blocked).web.points.len()
            <= s.web.points.len() + 1,
{
    let ends = ends_of(g, s.web.points, snap);
    lemma_ends_within(g, s.web.points, snap);
    let split = if ends.len() == 2 {
        s.removed(ends[0], ends[1])
    } else {
        s
    };
    if ends.len() == 2 {
        lemma_borrowed_removed(s, web, ends[0], ends[1]);
    }
    let sv = split.web.vertex_of(snap) as usize;
    lemma_borrowed_vertex(split, web, snap);
    let more = split.with_vertex(snap);
    assert(more.web.points[sv as int] == snap);
    assert(sv >= web.points.len()) by {
        if sv < web.points.len() {
            assert(web.points[sv as int] == more.web.points[sv as int]);
        }
    }
    lemma_borrowed_attached(more, web, sv, c);
    lemma_borrowed_reached_all(more.attached(sv, c), web, sv, ends, allow45, blocked);
}

proof fn lemma_borrowed_all(
    s: Graft,
    web: Web,
    g: Grid,
    c: usize,
    snaps: Seq<Point>,
    allow45: bool,
    blocked: spec_fn(Point, Point) -> bool,
)
    requires
        borrowed(s, web),
        s.web.points.len() + snaps.len() < usize::MAX,
        c < s.web.points.len(),
        forall|i: int| 0 <= i < snaps.len() ==> !web.points.contains(#[trigger] snaps[i]),
    ensures
        borrowed(s.snapped_all(g, c, snaps, allow45, blocked), web),
        s.web.points.len() <= s.snapped_all(g, c, snaps, allow45, blocked).web.points.len()
            <= s.web.points.len() + snaps.len(),
    decreases snaps.len(),
{
    if snaps.len() > 0 {
        let head = snaps.drop_last();
        assert forall|i: int| 0 <= i < head.len() implies !web.points.contains(
            #[trigger] head[i],
        ) by {
            assert(snaps[i] == head[i]);
        }
        lemma_borrowed_all(s, web, g, c, head, allow45, blocked);
        assert(!web.points.contains(snaps[snaps.len() - 1]));
        lemma_borrowed_snapped(
            s.snapped_all(g, c, head, allow45, blocked),
            web,
            g,
            c,
            snaps.last(),
            allow45,
            blocked,
        );
    }
}

/// Cutting edges of later vertices leaves the earlier ones alone.
proof fn lemma_cut_later(web: Web, cut: Seq<(usize, usize)>, n: int)
    requires
        web.wf(),
        web.mutual(),
        n <= web.points.len(),
        forall|i: int|
            0 <= i < cut.len() ==> n <= (#[trigger] cut[i]).0 < web.points.len() && cut[i].1
                < web.points.len(),
    ensures
        ({
            let after = web.cut_all(cut);
            &&& after.wf() && after.mutual() && after.points == web.points
            &&& forall|x: usize, y: usize|
                #![trigger after.edge(x, y)]
                x < n && y < n ==> after.edge(x, y) == web.edge(x, y)
        }),
    decreases cut.len(),
{
    if cut.len() > 0 {
        let head = cut.drop_last();
        assert forall|i: int| 0 <= i < head.len() implies n <= (#[trigger] head[i]).0
            < web.points.len() && head[i].1 < web.points.len() by {
            assert(cut[i] == head[i]);
        }
        lemma_cut_later(web, head, n);
        let most = web.cut_all(head);
        let (a, b) = cut.last();
        assert(cut[cut.len() - 1] == cut.last());
        lemma_severed(most, a, b);
        lemma_cut_mutual(most, a, b);
        let after = web.cut_all(cut);
        assert forall|x: usize, y: usize|
            #![trigger after.edge(x, y)]
            x < n && y < n implies after.edge(x, y) == web.edge(x, y) by {
            law_cut_takes_one(most, a, b, x, y);
            assert(most.edge(x, y) == web.edge(x, y));
        }
    }
}

/// Undoing a terminal's access puts the graph back as it was: between the vertices that were there
/// before, it has the edges that it had, and no others. So it is where every snap point lies between
/// vertices rather than on one.
pub proof fn law_access_is_undone(
    web: Web,
    g: Grid,
    centre: Point,
    snaps: Seq<Point>,
    allow45: bool,
    blocked: spec_fn(Point, Point) -> bool,
    x: usize,
    y: usize,
)
    requires
        web.wf(),
        web.mutual(),
        web.points.len() + snaps.len() + 1 < usize::MAX,
        forall|i: int| 0 <= i < snaps.len() ==> !web.points.contains(#[trigger] snaps[i]),
        x < web.points.len(),
        y < web.points.len(),
    ensures
        ({
            let s = grafted(web, g, centre, snaps, allow45, blocked);
            s.web.undone(s.record, nothing_blocked()).edge(x, y) == web.edge(x, y)
        }),
{
    let empty = Record { restore: Seq::empty(), cut: Seq::empty() };
    let bare = Graft { web, record: empty };
    assert(borrowed(bare, web));
    lemma_borrowed_vertex(bare, web, centre);
    let start = bare.with_vertex(centre);
    lemma_borrowed_all(
        start,
        web,
        g,
        web.vertex_of(centre) as usize,
        snaps,
        allow45,
        blocked,
    );
    let s = grafted(web, g, centre, snaps, allow45, blocked);
    assert(borrowed(s, web));
    let n = web.points.len() as int;
    assert forall|i: int| 0 <= i < s.record.cut.len() implies n <= (#[trigger] s.record.cut[i]).0
        < s.web.points.len() && s.record.cut[i].1 < s.web.points.len() by {}
    lemma_cut_later(s.web, s.record.cut, n);
    let cut = s.web.cut_all(s.record.cut);
    lemma_restored_edges(cut, s.record.restore, nothing_blocked());
    let after = cut.restored(s.record.restore, nothing_blocked());
    assert(cut.edge(x, y) == s.web.edge(x, y));
    assert(after.edge(x, y) == (cut.edge(x, y) || listed(
        s.record.restore,
        cut.points,
        nothing_blocked(),
        x,
        y,
    )));
    assert(web.edge(x, y) == (s.web.edge(x, y) || listed(
        s.record.restore,
        s.web.points,
        nothing_blocked(),
        x,
        y,
    )));
}

/// A graph onto which a terminal was grafted has every edge from either end, and so has the record of it.
pub(crate) proof fn lemma_grafted_sound(
    web: Web,
    g: Grid,
    centre: Point,
    snaps: Seq<Point>,
    allow45: bool,
    blocked: spec_fn(Point, Point) -> bool,
)
    requires
        web.wf(),
        web.mutual(),
        web.points.len() + snaps.len() + 1 < usize::MAX,
    ensures
        ({
            let s = grafted(web, g, centre, snaps, allow45, blocked);
            &&& s.wf() && s.web.mutual()
            &&& of_pairs(s.record.restore, s.web.points.len() as int)
            &&& web.points.len() <= s.web.points.len() <= web.points.len() + snaps.len() + 1
        }),
{
    let none = Web { points: Seq::empty(), adj: Seq::empty() };
    let bare = Graft { web, record: Record { restore: Seq::empty(), cut: Seq::empty() } };
    assert(borrowed(bare, none));
    lemma_borrowed_vertex(bare, none, centre);
    lemma_borrowed_all(
        bare.with_vertex(centre),
        none,
        g,
        web.vertex_of(centre) as usize,
        snaps,
        allow45,
        blocked,
    );
}

/// A committed route leaves a graph that has every edge from either end.
pub(crate) proof fn lemma_committed_sound(
    web: Web,
    route: Seq<Point>,
    width: int,
    spacing: int,
    allow45: bool,
)
    requires
        web.wf(),
        web.mutual(),
        web.points.len() <= usize::MAX,
    ensures
        ({
            let c = committed(web, route, width, spacing, allow45);
            c.web.wf() && c.web.mutual() && c.web.points == web.points
        }),
{
    let start = Graft { web, record: Record { restore: Seq::empty(), cut: Seq::empty() } };
    assert(took_out(start, web));
    lemma_took_rows(start, web, route, clearance(width, spacing), allow45, web.points.len());
}

/// Cutting edges adds none.
pub(crate) proof fn lemma_cut_adds_none(web: Web, cut: Seq<(usize, usize)>, x: usize, y: usize)
    requires
        web.wf(),
        web.mutual(),
        x < web.points.len(),
        forall|i: int|
            0 <= i < cut.len() ==> (#[trigger] cut[i]).0 < web.points.len() && cut[i].1
                < web.points.len(),
    ensures
        web.cut_all(cut).wf(),
        web.cut_all(cut).mutual(),
        web.cut_all(cut).points == web.points,
        web.cut_all(cut).edge(x, y) ==> web.edge(x, y),
    decreases cut.len(),
{
    if cut.len() > 0 {
        let head = cut.drop_last();
        assert forall|i: int| 0 <= i < head.len() implies (#[trigger] head[i]).0 < web.points.len()
            && head[i].1 < web.points.len() by {
            assert(cut[i] == head[i]);
        }
        lemma_cut_adds_none(web, head, x, y);
        let most = web.cut_all(head);
        let (a, b) = cut.last();
        assert(cut[cut.len() - 1] == cut.last());
        lemma_severed(most, a, b);
        lemma_cut_mutual(most, a, b);
        law_cut_takes_one(most, a, b, x, y);
    }
}

/// Undoing two accesses, the later first, puts the graph back as it was: between the vertices that were there
/// before, it has the edges that it had, and no others. So it is where every snap point lies between
/// vertices rather than on one.
pub proof fn law_both_accesses_are_undone(
    web: Web,
    g: Grid,
    near: (Point, Seq<Point>),
    far: (Point, Seq<Point>),
    allow45: bool,
    blocked: spec_fn(Point, Point) -> bool,
    x: usize,
    y: usize,
)
    requires
        web.wf(),
        web.mutual(),
        web.points.len() + near.1.len() + far.1.len() + 3 < usize::MAX,
        forall|i: int| 0 <= i < near.1.len() ==> !web.points.contains(#[trigger] near.1[i]),
        forall|i: int|
            0 <= i < far.1.len() ==> !grafted(
                web,
                g,
                near.0,
                near.1,
                allow45,
                blocked,
            ).web.points.contains(#[trigger] far.1[i]),
        x < web.points.len(),
        y < web.points.len(),
    ensures
        ({
            let a = grafted(web, g, near.0, near.1, allow45, blocked);
            let b = grafted(a.web, g, far.0, far.1, allow45, blocked);
            b.web.undone(b.record, nothing_blocked()).undone(a.record, nothing_blocked()).edge(x, y)
                == web.edge(x, y)
        }),
{
    let never = nothing_blocked();
    let a = grafted(web, g, near.0, near.1, allow45, blocked);
    lemma_grafted_sound(web, g, near.0, near.1, allow45, blocked);
    lemma_grafted_borrowed(web, g, near.0, near.1, allow45, blocked);
    let b = grafted(a.web, g, far.0, far.1, allow45, blocked);
    lemma_grafted_sound(a.web, g, far.0, far.1, allow45, blocked);
    law_access_is_undone(a.web, g, far.0, far.1, allow45, blocked, x, y);
    let mid = b.web.undone(b.record, never);
    lemma_cut_adds_none(b.web, b.record.cut, x, y);
    lemma_restored_edges(b.web.cut_all(b.record.cut), b.record.restore, never);
    let n = web.points.len() as int;
    assert forall|i: int| 0 <= i < a.record.cut.len() implies n <= (#[trigger] a.record.cut[i]).0
        < mid.points.len() && a.record.cut[i].1 < mid.points.len() by {}
    lemma_cut_later(mid, a.record.cut, n);
    let cut = mid.cut_all(a.record.cut);
    assert(of_pairs(a.record.restore, cut.points.len() as int));
    lemma_restored_edges(cut, a.record.restore, never);
    let after = cut.restored(a.record.restore, never);
    assert(cut.edge(x, y) == mid.edge(x, y));
    assert(after.edge(x, y) == (cut.edge(x, y) || listed(
        a.record.restore,
        cut.points,
        never,
        x,
        y,
    )));
    lemma_listed_anywhere(a.record.restore, cut.points, a.web.points, x, y);
    assert(web.edge(x, y) == (a.web.edge(x, y) || listed(
        a.record.restore,
        a.web.points,
        never,
        x,
        y,
    )));
}

proof fn lemma_grafted_borrowed(
    web: Web,
    g: Grid,
    centre: Point,
    snaps: Seq<Point>,
    allow45: bool,
    blocked: spec_fn(Point, Point) -> bool,
)
    requires
        web.wf(),
        web.mutual(),
        web.points.len() + snaps.len() + 1 < usize::MAX,
        forall|i: int| 0 <= i < snaps.len() ==> !web.points.contains(#[trigger] snaps[i]),
    ensures
        borrowed(grafted(web, g, centre, snaps, allow45, blocked), web),
{
    let bare = Graft { web, record: Record { restore: Seq::empty(), cut: Seq::empty() } };
    assert(borrowed(bare, web));
    lemma_borrowed_vertex(bare, web, centre);
    lemma_borrowed_all(
        bare.with_vertex(centre),
        web,
        g,
        web.vertex_of(centre) as usize,
        snaps,
        allow45,
        blocked,
    );
}

/// What an edge put in adds.
proof fn lemma_attached_edges(s: Graft, a: usize, b: usize, x: usize, y: usize)
    requires
        s.wf(),
        s.web.mutual(),
        a < s.web.points.len(),
        b < s.web.points.len(),
        x < s.web.points.len(),
        a != b,
    ensures
        s.attached(a, b).wf(),
        s.attached(a, b).web.mutual(),
        s.attached(a, b).web.points == s.web.points,
        s.attached(a, b).web.edge(x, y) == (s.web.edge(x, y) || same_pair(a, b, x, y)),
{
    lemma_attached(s, a, b);
    let w = crate::rdl::cost::weight(
        crate::geom::pt(s.web.points[a as int]),
        crate::geom::pt(s.web.points[b as int]),
        Single::unity(),
    ) as i64;
    lemma_join_mutual(s.web, a, b, w);
    law_join_adds_one(s.web, a, b, w, x, y);
}

/// How a snap point is grafted on, where only straight edges are allowed and it is no vertex yet. It becomes
/// one, joined to the terminal and to each of the grid points it lies between that is not barred to it; the
/// edge between these two is gone; and all else is as it was.
pub proof fn law_snap_joins_terminal_and_grid(
    s: Graft,
    g: Grid,
    c: usize,
    snap: Point,
    blocked: spec_fn(Point, Point) -> bool,
    x: usize,
    y: usize,
)
    requires
        s.wf(),
        s.web.mutual(),
        s.web.points.len() < usize::MAX,
        c < s.web.points.len(),
        !s.web.points.contains(snap),
        x <= s.web.points.len(),
        y <= s.web.points.len(),
    ensures
        ({
            let t = s.snapped(g, c, snap, false, blocked);
            let n = s.web.points.len() as usize;
            let ends = ends_of(g, s.web.points, snap);
            let open = |v: usize|
                v == c || exists|i: int|
                    0 <= i < ends.len() && #[trigger] ends[i] == v && !blocked(
                        snap,
                        s.web.points[v as int],
                    );
            let parted = ends.len() == 2 && same_pair(ends[0], ends[1], x, y);
            &&& t.web.points == s.web.points.push(snap)
            &&& x == n && y < n ==> t.web.edge(x, y) == open(y)
            &&& y == n && x < n ==> t.web.edge(x, y) == open(x)
            &&& x == n && y == n ==> !t.web.edge(x, y)
            &&& x < n && y < n ==> t.web.edge(x, y) == (s.web.edge(x, y) && !parted)
        }),
{
    let n = s.web.points.len() as usize;
    let ends = ends_of(g, s.web.points, snap);
    lemma_ends_within(g, s.web.points, snap);
    lemma_slot(s.web.points, snap);
    let split = if ends.len() == 2 {
        s.removed(ends[0], ends[1])
    } else {
        s
    };
    if ends.len() == 2 {
        lemma_removed(s, ends[0], ends[1]);
        lemma_cut_mutual(s.web, ends[0], ends[1]);
        if x < n {
            law_cut_takes_one(s.web, ends[0], ends[1], x, y);
        }
    }
    let more = split.with_vertex(snap);
    lemma_with_vertex(split.web, snap);
    assert(more.web.mutual()) by {
        assert forall|u: usize, v: usize|
            #![trigger more.web.edge(u, v)]
            u < more.web.points.len() && v < more.web.points.len() && more.web.edge(u, v) implies u
            != v && more.web.edge(v, u) by {
            if u < n {
                assert(split.web.edge(u, v));
                let k = choose|k: int|
                    0 <= k < split.web.adj[u as int].len() && (#[trigger] split.web.adj[u as int][k]).0
                        == v;
                assert(v < split.web.points.len());
                assert(split.web.edge(v, u));
            }
        }
    }
    assert(x < n ==> more.web.edge(x, y) == split.web.edge(x, y));
    assert(!more.web.edge(n, y));
    if x < n && y == n && more.web.edge(x, y) {
        let k = choose|k: int|
            0 <= k < split.web.adj[x as int].len() && (#[trigger] split.web.adj[x as int][k]).0 == y;
        assert(split.web.adj[x as int][k].0 < split.web.points.len());
    }
    let on = more.attached(n, c);
    lemma_attached_edges(more, n, c, x, y);
    lemma_reached_edges(on, n, ends, blocked, x, y);
    let t = s.snapped(g, c, snap, false, blocked);
    assert(t == on.reached_all(n, ends, false, blocked));
    assert forall|i: int| 0 <= i < ends.len() implies on.web.points[(#[trigger] ends[i]) as int]
        == s.web.points[ends[i] as int] by {}
}

/// The edges that joining a vertex to some others adds.
proof fn lemma_reached_edges(
    s: Graft,
    n: usize,
    ends: Seq<usize>,
    blocked: spec_fn(Point, Point) -> bool,
    x: usize,
    y: usize,
)
    requires
        s.wf(),
        s.web.mutual(),
        n < s.web.points.len(),
        x < s.web.points.len(),
        forall|i: int| 0 <= i < ends.len() ==> (#[trigger] ends[i]) < n,
    ensures
        ({
            let t = s.reached_all(n, ends, false, blocked);
            let snap = s.web.points[n as int];
            let joins = |v: usize|
                exists|i: int|
                    0 <= i < ends.len() && #[trigger] ends[i] == v && !blocked(
                        snap,
                        s.web.points[v as int],
                    );
            &&& t.wf() && t.web.mutual() && t.web.points == s.web.points
            &&& t.web.edge(x, y) == (s.web.edge(x, y) || (x == n && joins(y)) || (y == n && joins(
                x,
            )))
        }),
    decreases ends.len(),
{
    if ends.len() > 0 {
        let head = ends.drop_last();
        let e = ends.last();
        assert forall|i: int| 0 <= i < head.len() implies (#[trigger] head[i]) < n by {
            assert(ends[i] == head[i]);
        }
        lemma_reached_edges(s, n, head, blocked, x, y);
        assert(ends[ends.len() - 1] == e);
        let most = s.reached_all(n, head, false, blocked);
        let snap = s.web.points[n as int];
        if !blocked(snap, s.web.points[e as int]) {
            lemma_attached_edges(most, n, e, x, y);
        }
        assert forall|v: usize|
            (exists|i: int|
                0 <= i < ends.len() && #[trigger] ends[i] == v && !blocked(
                    snap,
                    s.web.points[v as int],
                )) == ((exists|i: int|
                0 <= i < head.len() && #[trigger] head[i] == v && !blocked(
                    snap,
                    s.web.points[v as int],
                )) || (v == e && !blocked(snap, s.web.points[v as int]))) by {
            if exists|i: int|
                0 <= i < head.len() && #[trigger] head[i] == v && !blocked(
                    snap,
                    s.web.points[v as int],
                ) {
                let i = choose|i: int|
                    0 <= i < head.len() && #[trigger] head[i] == v && !blocked(
                        snap,
                        s.web.points[v as int],
                    );
                assert(ends[i] == v);
            }
            if exists|i: int|
                0 <= i < ends.len() && #[trigger] ends[i] == v && !blocked(
                    snap,
                    s.web.points[v as int],
                ) {
                let i = choose|i: int|
                    0 <= i < ends.len() && #[trigger] ends[i] == v && !blocked(
                        snap,
                        s.web.points[v as int],
                    );
                if i < head.len() {
                    assert(head[i] == v);
                }
            }
        }
    }
}

} // verus!
