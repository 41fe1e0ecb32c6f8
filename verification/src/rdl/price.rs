//! What a change of the graph and its undoing leave of what the graph's edges cost.

use crate::geom::{pt, Point};
use crate::lists::{lemma_those, those};
use crate::rdl::commit::{clearance, committed, doomed, doomed_row};
use crate::rdl::cost::{
    law_horizontal_costs_one_more, law_restored_horizontal, law_unbiased_edge_restores,
    lemma_length, lemma_length_exists, lemma_length_i32, lemma_recovered_unsigned,
    lemma_weight_unsigned, length, recovered, weight,
};
use crate::rdl::graft::Graft;
use crate::rdl::graph::{
    lemma_linked, lemma_slot, lemma_with_edges, nothing_blocked, slot, web_of, weight_to, without,
    Links, Record, Web,
};
use crate::rdl::grid::{crossings, Grid};
use crate::rdl::restore::{
    law_built_is_mutual, lemma_listed_push, lemma_restored_edges, lemma_took_one, lemma_took_rows,
    lemma_weight_leads, listed, of_pairs, same_pair, took_out,
};
use crate::single::Single;
use vstd::prelude::*;

verus! {

impl Web {
    /// What the edge from `a` to `b` costs, if there is one.
    pub open spec fn cost(self, a: usize, b: usize) -> Option<i64> {
        weight_to(self.adj[a as int], b)
    }

    /// Every edge costs the same from either end.
    pub open spec fn even(self) -> bool {
        forall|a: usize, b: usize|
            #![trigger self.cost(a, b)]
            a < self.points.len() && b < self.points.len() ==> self.cost(a, b) == self.cost(b, a)
    }
}

proof fn lemma_weight_push(links: Links, b: usize, w: i64, y: usize)
    ensures
        weight_to(links.push((b, w)), y) == match weight_to(links, y) {
            Some(v) => Some(v),
            None => if y == b {
                Some(w)
            } else {
                None
            },
        },
    decreases links.len(),
{
    let more = links.push((b, w));
    if links.len() == 0 {
        assert(more[0] == (b, w));
        assert(more.drop_first() =~= links);
    } else {
        assert(more[0] == links[0]);
        assert(more.drop_first() =~= links.drop_first().push((b, w)));
        lemma_weight_push(links.drop_first(), b, w, y);
    }
}

proof fn lemma_weight_without(links: Links, b: usize, y: usize)
    ensures
        weight_to(without(links, b), y) == if y == b {
            None
        } else {
            weight_to(links, y)
        },
    decreases links.len(),
{
    if links.len() > 0 {
        let head = links.drop_last();
        let (c, w) = links.last();
        lemma_weight_without(head, b, y);
        assert(links =~= head.push((c, w)));
        lemma_weight_push(head, c, w, y);
        if c != b {
            lemma_weight_push(without(head, b), c, w, y);
        }
    }
}

/// Cutting an edge leaves every other edge its cost.
pub proof fn law_cut_keeps_costs(web: Web, a: usize, b: usize, x: usize, y: usize)
    requires
        web.wf(),
        a < web.points.len(),
        b < web.points.len(),
        x < web.points.len(),
    ensures
        web.severed(a, b).cost(x, y) == if same_pair(a, b, x, y) {
            None
        } else {
            web.cost(x, y)
        },
{
    let one = web.adj.update(a as int, without(web.adj[a as int], b));
    lemma_weight_without(web.adj[a as int], b, y);
    lemma_weight_without(one[b as int], a, y);
}

/// Joining two vertices leaves every edge its cost, and gives a new edge the cost it is joined at.
pub proof fn law_join_keeps_costs(web: Web, a: usize, b: usize, w: i64, x: usize, y: usize)
    requires
        web.wf(),
        web.mutual(),
        a < web.points.len(),
        b < web.points.len(),
        x < web.points.len(),
        a != b,
    ensures
        web.joined(a, b, w).cost(x, y) == match web.cost(x, y) {
            Some(v) => Some(v),
            None => if same_pair(a, b, x, y) {
                Some(w)
            } else {
                None
            },
        },
{
    lemma_weight_leads(web.adj[a as int], b);
    lemma_weight_leads(web.adj[b as int], a);
    if web.edge(a, b) {
        assert(web.edge(b, a));
    } else {
        assert(!web.edge(b, a));
        lemma_weight_push(web.adj[a as int], b, w, y);
        lemma_weight_push(web.adj[b as int], a, w, y);
    }
}

/// How far it is, and what an edge costs, is the same from either end.
pub(crate) proof fn lemma_either_way(a: (int, int), b: (int, int), scale: Single, w: int)
    ensures
        length(a, b) == length(b, a),
        weight(a, b, scale) == weight(b, a, scale),
        recovered(a, b, w) == recovered(b, a, w),
{
    assert((a.0 - b.0) * (a.0 - b.0) + (a.1 - b.1) * (a.1 - b.1) == (b.0 - a.0) * (b.0 - a.0) + (b.1
        - a.1) * (b.1 - a.1)) by (nonlinear_arith);
    lemma_length_exists(a, b);
    lemma_length(b, a, length(a, b));
}

/// What is listed to be put back is listed with the scale recovered from what it cost.
spec fn priced(list: Seq<(usize, usize, Single)>, web: Web) -> bool {
    forall|i: int| #![trigger list[i]]
        0 <= i < list.len() ==> {
            let (a, b, scale) = list[i];
            &&& a < web.points.len() && b < web.points.len()
            &&& web.cost(a, b) is Some
            &&& scale == recovered(
                pt(web.points[a as int]),
                pt(web.points[b as int]),
                web.cost(a, b)->Some_0 as int,
            )
        }
}

/// What an edge costs once it is put back.
pub open spec fn put_back(web: Web, x: usize, y: usize) -> i64 {
    let (p, q) = (pt(web.points[x as int]), pt(web.points[y as int]));
    weight(p, q, recovered(p, q, web.cost(x, y)->Some_0 as int)) as i64
}

/// What is left costs what it did, and what was taken is listed with what it cost.
spec fn took_priced(s: Graft, web: Web) -> bool {
    &&& priced(s.record.restore, web)
    &&& forall|x: usize, y: usize|
        #![trigger s.web.cost(x, y)]
        x < web.points.len() && y < web.points.len() && s.web.cost(x, y) is Some ==> s.web.cost(
            x,
            y,
        ) == web.cost(x, y)
}

proof fn lemma_priced_one(s: Graft, web: Web, a: usize, b: usize)
    requires
        took_out(s, web),
        took_priced(s, web),
        a < web.points.len(),
        b < web.points.len(),
    ensures
        took_priced(s.removed(a, b), web),
{
    let t = s.removed(a, b);
    assert(s.web.cost(a, b) is Some ==> s.web.cost(a, b) == web.cost(a, b));
    assert forall|i: int| #![trigger t.record.restore[i]] 0 <= i < t.record.restore.len() implies ({
        let (u, v, scale) = t.record.restore[i];
        &&& u < web.points.len() && v < web.points.len()
        &&& web.cost(u, v) is Some
        &&& scale == recovered(
            pt(web.points[u as int]),
            pt(web.points[v as int]),
            web.cost(u, v)->Some_0 as int,
        )
    }) by {
        if i < s.record.restore.len() {
            assert(t.record.restore[i] == s.record.restore[i]);
        }
    }
    assert forall|x: usize, y: usize|
        #![trigger t.web.cost(x, y)]
        x < web.points.len() && y < web.points.len() && t.web.cost(x, y) is Some implies t.web.cost(
        x,
        y,
    ) == web.cost(x, y) by {
        law_cut_keeps_costs(s.web, a, b, x, y);
        assert(s.web.cost(x, y) == web.cost(x, y));
    }
}

proof fn lemma_priced_row(s: Graft, web: Web, a: usize, list: Seq<usize>)
    requires
        took_out(s, web),
        took_priced(s, web),
        a < web.points.len(),
        forall|i: int| 0 <= i < list.len() ==> #[trigger] list[i] < web.points.len(),
    ensures
        took_out(s.removed_all(a, list), web),
        took_priced(s.removed_all(a, list), web),
    decreases list.len(),
{
    if list.len() > 0 {
        let head = list.drop_last();
        assert forall|i: int| 0 <= i < head.len() implies #[trigger] head[i]
            < web.points.len() by {
            assert(list[i] == head[i]);
        }
        lemma_priced_row(s, web, a, head);
        assert(list[list.len() - 1] < web.points.len());
        lemma_took_one(s.removed_all(a, head), web, a, list.last());
        lemma_priced_one(s.removed_all(a, head), web, a, list.last());
    }
}

proof fn lemma_priced_rows(s: Graft, web: Web, route: Seq<Point>, d: int, allow45: bool, n: nat)
    requires
        took_out(s, web),
        took_priced(s, web),
        n <= web.points.len() <= usize::MAX,
    ensures
        took_priced(s.swept_out(web, route, d, allow45, n), web),
    decreases n,
{
    if n > 0 {
        let a = (n - 1) as usize;
        lemma_took_rows(s, web, route, d, allow45, (n - 1) as nat);
        lemma_priced_rows(s, web, route, d, allow45, (n - 1) as nat);
        let cond = |b: usize| b >= a && doomed(web, route, d, allow45, a, b);
        lemma_those(web.points.len(), cond);
        let row = doomed_row(web, route, d, allow45, a);
        assert(row == those(web.points.len(), cond));
        lemma_priced_row(s.swept_out(web, route, d, allow45, (n - 1) as nat), web, a, row);
    }
}

/// Putting priced edges back leaves the others their cost.
proof fn lemma_restored_costs(
    less: Web,
    web: Web,
    list: Seq<(usize, usize, Single)>,
    x: usize,
    y: usize,
)
    requires
        less.wf(),
        less.mutual(),
        less.points == web.points,
        web.even(),
        of_pairs(list, web.points.len() as int),
        priced(list, web),
        x < web.points.len(),
        y < web.points.len(),
    ensures
        less.restored(list, nothing_blocked()).cost(x, y) == (match less.cost(x, y) {
            Some(v) => Some(v),
            None => if listed(list, web.points, nothing_blocked(), x, y) {
                Some(put_back(web, x, y))
            } else {
                None
            },
        }),
    decreases list.len(),
{
    if list.len() > 0 {
        let head = list.drop_last();
        assert(of_pairs(head, web.points.len() as int) && priced(head, web)) by {
            assert forall|i: int| 0 <= i < head.len() implies #[trigger] head[i] == list[i] by {}
        }
        lemma_restored_costs(less, web, head, x, y);
        lemma_restored_edges(less, head, nothing_blocked());
        let before = less.restored(head, nothing_blocked());
        let (a, b, scale) = list.last();
        assert(list[list.len() - 1] == list.last());
        let (p, q) = (web.points[a as int], web.points[b as int]);
        let w = weight(pt(p), pt(q), scale) as i64;
        law_join_keeps_costs(before, a, b, w, x, y);
        assert(web.cost(a, b) == web.cost(b, a));
        let had = web.cost(a, b)->Some_0 as int;
        lemma_either_way(pt(p), pt(q), recovered(pt(p), pt(q), had), had);
        if same_pair(a, b, x, y) {
            assert(put_back(web, x, y) == w);
        }
        assert(listed(list, web.points, nothing_blocked(), x, y) <==> (listed(
            head,
            web.points,
            nothing_blocked(),
            x,
            y,
        ) || same_pair(a, b, x, y))) by {
            assert(list =~= head.push(list.last()));
            lemma_listed_push(head, list.last(), web.points, x, y);
        }
    } else {
        assert(!listed(list, web.points, nothing_blocked(), x, y));
    }
}

/// Through committing a route and ripping it up, an edge that was not cut keeps its cost, an edge that
/// was cut comes back at the cost its recovered scale gives it, and no edge appears.
pub proof fn law_rip_up_costs(
    web: Web,
    route: Seq<Point>,
    width: int,
    spacing: int,
    allow45: bool,
    x: usize,
    y: usize,
)
    requires
        web.wf(),
        web.mutual(),
        web.even(),
        web.points.len() <= usize::MAX,
        x < web.points.len(),
        y < web.points.len(),
    ensures
        ({
            let c = committed(web, route, width, spacing, allow45);
            let after = c.web.undone(c.record, nothing_blocked());
            &&& after.points == web.points
            &&& after.cost(x, y) is Some <==> web.cost(x, y) is Some
            &&& c.web.cost(x, y) is Some ==> after.cost(x, y) == web.cost(x, y)
            &&& c.web.cost(x, y) is None && web.cost(x, y) is Some ==> after.cost(x, y) == Some(
                put_back(web, x, y),
            )
        }),
{
    let start = Graft { web, record: Record { restore: Seq::empty(), cut: Seq::empty() } };
    assert(took_out(start, web));
    assert(took_priced(start, web));
    let d = clearance(width, spacing);
    lemma_took_rows(start, web, route, d, allow45, web.points.len());
    lemma_priced_rows(start, web, route, d, allow45, web.points.len());
    let c = committed(web, route, width, spacing, allow45);
    assert(c.web.cut_all(c.record.cut) == c.web);
    lemma_restored_edges(c.web, c.record.restore, nothing_blocked());
    lemma_restored_costs(c.web, web, c.record.restore, x, y);
    lemma_weight_leads(web.adj[x as int], y);
    lemma_weight_leads(c.web.adj[x as int], y);
    assert(web.edge(x, y) == (c.web.edge(x, y) || listed(
        c.record.restore,
        web.points,
        nothing_blocked(),
        x,
        y,
    )));
    assert(c.web.cost(x, y) is Some ==> c.web.cost(x, y) == web.cost(x, y));
}

/// Every edge of a fresh graph costs what its ends make it cost.
proof fn lemma_fresh_costs(web: Web, edges: Seq<(Point, Point)>, x: usize, y: usize)
    requires
        web.wf(),
        web.points.len() <= usize::MAX,
        forall|i: int| 0 <= i < edges.len() ==> (#[trigger] edges[i]).0 != edges[i].1,
        forall|i: int| 0 <= i < web.adj.len() ==> (#[trigger] web.adj[i]).len() == 0,
        x < web.points.len(),
    ensures
        web.with_edges(edges, Single::unity()).wf(),
        web.with_edges(edges, Single::unity()).points == web.points,
        web.with_edges(edges, Single::unity()).cost(x, y) is Some ==> y < web.points.len()
            && web.points[x as int] != web.points[y as int]
            && web.with_edges(edges, Single::unity()).cost(x, y) == Some(
            weight(
                pt(web.points[x as int]),
                pt(web.points[y as int]),
                Single::unity(),
            ) as i64,
        ),
    decreases edges.len(),
{
    if edges.len() == 0 {
        assert(web.adj[x as int].len() == 0);
    } else {
        let head = edges.drop_last();
        assert forall|i: int| 0 <= i < head.len() implies (#[trigger] head[i]).0 != head[i].1 by {
            assert(edges[i] == head[i]);
        }
        lemma_fresh_costs(web, head, x, y);
        let before = web.with_edges(head, Single::unity());
        let (a, b) = edges.last();
        assert(edges[edges.len() - 1] == edges.last());
        lemma_slot(web.points, a);
        lemma_slot(web.points, b);
        if let (Some(i), Some(j)) = (slot(web.points, a), slot(web.points, b)) {
            let (u, v) = (i as usize, j as usize);
            let w = weight(pt(a), pt(b), Single::unity()) as i64;
            lemma_linked(before, u, v, w);
            lemma_weight_push(before.adj[u as int], v, w, y);
            lemma_weight_push(before.adj[v as int], u, w, y);
            lemma_either_way(pt(a), pt(b), Single::unity(), 0);
        }
    }
}

/// A fresh graph is sound, and every edge of it costs what its ends make it cost.
pub(crate) proof fn lemma_fresh(g: Grid, edges: Seq<(Point, Point)>)
    requires
        forall|i: int| 0 <= i < edges.len() ==> (#[trigger] edges[i]).0 != edges[i].1,
        web_of(g, Seq::empty(), Single::unity()).points.len() <= usize::MAX,
    ensures
        ({
            let web = web_of(g, edges, Single::unity());
            &&& web.wf() && web.mutual() && web.even()
            &&& web.points.len() <= usize::MAX
            &&& forall|x: usize, y: usize|
                #![trigger web.cost(x, y)]
                x < web.points.len() && y < web.points.len() && web.cost(x, y) is Some
                    ==> web.points[x as int] != web.points[y as int] && web.cost(x, y) == Some(
                    weight(
                        pt(web.points[x as int]),
                        pt(web.points[y as int]),
                        Single::unity(),
                    ) as i64,
                )
        }),
{
    let one = Single::unity();
    let points = crossings(g.x@, g.y@);
    let bare = Web { points, adj: Seq::new(points.len(), |i: int| Seq::empty()) };
    assert(web_of(g, Seq::empty(), one) == bare);
    let web = web_of(g, edges, one);
    law_built_is_mutual(g, edges, one);
    lemma_with_edges(bare, edges, one);
    assert forall|a: usize, b: usize|
        #![trigger web.cost(a, b)]
        a < web.points.len() && b < web.points.len() implies web.cost(a, b) == web.cost(b, a) && (
    web.cost(a, b) is Some ==> web.points[a as int] != web.points[b as int] && web.cost(a, b) == Some(
        weight(pt(web.points[a as int]), pt(web.points[b as int]), one) as i64,
    )) by {
        lemma_fresh_costs(bare, edges, a, b);
        lemma_fresh_costs(bare, edges, b, a);
        lemma_weight_leads(web.adj[a as int], b);
        lemma_weight_leads(web.adj[b as int], a);
        assert(web.edge(a, b) ==> web.edge(b, a));
        assert(web.edge(b, a) ==> web.edge(a, b));
        lemma_either_way(pt(web.points[a as int]), pt(web.points[b as int]), one, 0);
    }
}

/// What an edge of a fresh graph costs once it is put back.
proof fn lemma_put_back(p: Point, q: Point)
    ensures
        ({
            let had = weight(pt(p), pt(q), Single::unity()) as i64;
            let has = weight(pt(p), pt(q), recovered(pt(p), pt(q), had as int)) as i64;
            &&& p.1 != q.1 ==> has == had
            &&& p != q && length(pt(p), pt(q)) < 0x80_0000 ==> has == had || has == had + 1
        }),
{
    let one = Single::unity();
    lemma_weight_unsigned(pt(p), pt(q), one);
    let w = weight(pt(p), pt(q), one);
    lemma_recovered_unsigned(pt(p), pt(q), w);
    lemma_weight_unsigned(pt(p), pt(q), recovered(pt(p), pt(q), w));
    if p.1 != q.1 {
        lemma_length_i32(p, q);
        law_unbiased_edge_restores(pt(p), pt(q));
    } else if p != q && length(pt(p), pt(q)) < 0x80_0000 {
        law_restored_horizontal(pt(p), pt(q));
    }
}

/// On a fresh graph, through committing a route and ripping it up: every edge that was not cut, and
/// every cut edge that is not horizontal, costs what it did, and a cut horizontal edge costs one unit
/// more, unless single precision lands just below that and it costs what it did.
pub proof fn law_fresh_rip_up(
    g: Grid,
    edges: Seq<(Point, Point)>,
    route: Seq<Point>,
    width: int,
    spacing: int,
    allow45: bool,
    x: usize,
    y: usize,
)
    requires
        forall|i: int| 0 <= i < edges.len() ==> (#[trigger] edges[i]).0 != edges[i].1,
        web_of(g, Seq::empty(), Single::unity()).points.len() <= usize::MAX,
        x < web_of(g, edges, Single::unity()).points.len(),
        y < web_of(g, edges, Single::unity()).points.len(),
        web_of(g, edges, Single::unity()).cost(x, y) is Some,
    ensures
        ({
            let web = web_of(g, edges, Single::unity());
            let c = committed(web, route, width, spacing, allow45);
            let after = c.web.undone(c.record, nothing_blocked());
            let (had, has) = (web.cost(x, y)->Some_0, after.cost(x, y)->Some_0);
            &&& after.cost(x, y) is Some
            &&& c.web.cost(x, y) is Some ==> has == had
            &&& web.points[x as int].1 != web.points[y as int].1 ==> has == had
            &&& length(pt(web.points[x as int]), pt(web.points[y as int])) < 0x80_0000 ==> has
                == had || has == had + 1
        }),
{
    lemma_fresh(g, edges);
    let web = web_of(g, edges, Single::unity());
    law_rip_up_costs(web, route, width, spacing, allow45, x, y);
    let (p, q) = (web.points[x as int], web.points[y as int]);
    assert(web.cost(x, y) == Some(weight(pt(p), pt(q), Single::unity()) as i64));
    lemma_put_back(p, q);
}

/// An edge of a fresh graph costs the whole units of its length, and one more where it is horizontal. So it
/// is while lengths are kept to the unit.
pub proof fn law_fresh_edges_cost_their_length(
    g: Grid,
    edges: Seq<(Point, Point)>,
    x: usize,
    y: usize,
    l: int,
)
    requires
        forall|i: int| 0 <= i < edges.len() ==> (#[trigger] edges[i]).0 != edges[i].1,
        web_of(g, Seq::empty(), Single::unity()).points.len() <= usize::MAX,
        x < web_of(g, edges, Single::unity()).points.len(),
        y < web_of(g, edges, Single::unity()).points.len(),
        web_of(g, edges, Single::unity()).cost(x, y) is Some,
        0 <= l < 0x100_0000,
        ({
            let web = web_of(g, edges, Single::unity());
            spans(web.points[x as int], web.points[y as int], l)
        }),
    ensures
        ({
            let web = web_of(g, edges, Single::unity());
            let (p, q) = (web.points[x as int], web.points[y as int]);
            web.cost(x, y)->Some_0 == l + if p.1 == q.1 {
                1int
            } else {
                0
            }
        }),
{
    let web = web_of(g, edges, Single::unity());
    lemma_fresh(g, edges);
    lemma_whole_length(web.points[x as int], web.points[y as int], l);
}

/// An edge that is grafted on costs what one of a fresh graph does.
pub proof fn law_grafted_edge_costs_its_length(s: Graft, x: usize, y: usize, l: int)
    requires
        s.web.wf(),
        s.web.mutual(),
        x < s.web.points.len(),
        y < s.web.points.len(),
        s.web.points[x as int] != s.web.points[y as int],
        s.web.cost(x, y) is None,
        0 <= l < 0x100_0000,
        spans(s.web.points[x as int], s.web.points[y as int], l),
    ensures
        ({
            let (p, q) = (s.web.points[x as int], s.web.points[y as int]);
            s.attached(x, y).web.cost(x, y)->Some_0 == l + if p.1 == q.1 {
                1int
            } else {
                0
            }
        }),
        s.attached(x, y).web.cost(x, y) is Some,
{
    let (p, q) = (s.web.points[x as int], s.web.points[y as int]);
    lemma_whole_length(p, q, l);
    law_join_keeps_costs(s.web, x, y, weight(pt(p), pt(q), Single::unity()) as i64, x, y);
}

/// The points are `l` whole units apart, and not one more.
pub open spec fn spans(p: Point, q: Point, l: int) -> bool {
    l * l <= (p.0 - q.0) * (p.0 - q.0) + (p.1 - q.1) * (p.1 - q.1) < (l + 1) * (l + 1)
}

proof fn lemma_whole_length(p: Point, q: Point, l: int)
    requires
        p != q,
        0 <= l < 0x100_0000,
        spans(p, q, l),
    ensures
        weight(pt(p), pt(q), Single::unity()) == l + if p.1 == q.1 {
            1int
        } else {
            0
        },
{
    lemma_length_exists(pt(p), pt(q));
    let m = length(pt(p), pt(q));
    assert(m < l + 1) by (nonlinear_arith)
        requires
            m * m < (l + 1) * (l + 1),
            m >= 0 && l >= 0,
    ;
    assert(l < m + 1) by (nonlinear_arith)
        requires
            l * l < (m + 1) * (m + 1),
            m >= 0 && l >= 0,
    ;
    law_horizontal_costs_one_more(pt(p), pt(q));
}

} // verus!
