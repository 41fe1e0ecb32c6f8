//! Grafting a terminal onto the grid.

use crate::geom::{pt, same_point, Point};
use crate::rdl::access::{follows_on, greatest_below, least_above, neighbours_of};
use crate::rdl::cost::{
    edge_weight, lemma_recovered_unsigned, lemma_weight_unsigned, recovered, restore_scale, weight,
};
use crate::rdl::graph::{
    lemma_joined, lemma_severed, lemma_with_vertex, slot, weight_to, Graph, Links, Record, Undo,
    Web,
};
use crate::rdl::grid::Grid;
use crate::rdl::mesh::{follows, total};
use crate::single::Single;
use vstd::prelude::*;

verus! {

/// A graph under a change, and the record of the change: the edges taken out, with the scales to
/// put them back with, and the edges put in.
pub struct Graft {
    pub web: Web,
    pub record: Record,
}

/// The graph and the record, as one.
pub open spec fn graft_of(graph: Graph, undo: Undo) -> Graft {
    Graft { web: graph@, record: undo@ }
}

impl Graft {
    /// The record speaks of vertices of the graph.
    pub open spec fn wf(self) -> bool {
        self.web.wf() && self.record.within(self.web.points.len() as int)
    }

    /// No edge, in the graph or to be put back, costs less than nothing.
    pub open spec fn nonneg(self) -> bool {
        self.web.nonneg() && self.record.nonneg()
    }

    /// The edge between `a` and `b` taken out, and recorded if there was one.
    pub open spec fn removed(self, a: usize, b: usize) -> Graft {
        let (p, q) = (self.web.points[a as int], self.web.points[b as int]);
        let restore = match weight_to(self.web.adj[a as int], b) {
            Some(w) => self.record.restore.push((a, b, recovered(pt(p), pt(q), w as int))),
            None => self.record.restore,
        };
        Graft {
            web: self.web.severed(a, b),
            record: Record { restore, cut: self.record.cut },
        }
    }

    /// An edge between `a` and `b` put in, and recorded.
    pub open spec fn attached(self, a: usize, b: usize) -> Graft {
        let w = weight(
            pt(self.web.points[a as int]),
            pt(self.web.points[b as int]),
            Single::unity(),
        );
        Graft {
            web: self.web.joined(a, b, w as i64),
            record: Record {
                restore: self.record.restore,
                cut: self.record.cut.push((a, b)),
            },
        }
    }

    /// A vertex at a point, made where there was none.
    pub open spec fn with_vertex(self, p: Point) -> Graft {
        Graft { web: self.web.with_vertex(p), record: self.record }
    }

    /// The edges from `e` to each of the listed vertices taken out.
    pub open spec fn removed_all(self, e: usize, list: Seq<usize>) -> Graft
        decreases list.len(),
    {
        if list.len() == 0 {
            self
        } else {
            self.removed_all(e, list.drop_last()).removed(e, list.last())
        }
    }

    /// The vertex `sv` of a snap point joined to the grid point `e`, unless that is blocked; with
    /// slanted edges, what would then turn too sharply at `e` is taken out.
    pub open spec fn reached(
        self,
        sv: usize,
        e: usize,
        allow45: bool,
        blocked: spec_fn(Point, Point) -> bool,
    ) -> Graft {
        let snap = self.web.points[sv as int];
        if blocked(snap, self.web.points[e as int]) {
            self
        } else {
            let on = self.attached(sv, e);
            if allow45 {
                on.removed_all(e, sharp(on.web, on.web.adj[e as int], e, snap))
            } else {
                on
            }
        }
    }

    /// The same for each of the grid points a snap point lies between.
    pub open spec fn reached_all(
        self,
        sv: usize,
        ends: Seq<usize>,
        allow45: bool,
        blocked: spec_fn(Point, Point) -> bool,
    ) -> Graft
        decreases ends.len(),
    {
        if ends.len() == 0 {
            self
        } else {
            self.reached_all(sv, ends.drop_last(), allow45, blocked).reached(
                sv,
                ends.last(),
                allow45,
                blocked,
            )
        }
    }

    /// One snap point grafted on: the grid edge it lies on is taken out, the snap point becomes a
    /// vertex, joined to the terminal's centre and then to the grid points on either side.
    pub open spec fn snapped(
        self,
        g: Grid,
        c: usize,
        snap: Point,
        allow45: bool,
        blocked: spec_fn(Point, Point) -> bool,
    ) -> Graft {
        let ends = ends_of(g, self.web.points, snap);
        let split = if ends.len() == 2 {
            self.removed(ends[0], ends[1])
        } else {
            self
        };
        let sv = split.web.vertex_of(snap) as usize;
        split.with_vertex(snap).attached(sv, c).reached_all(sv, ends, allow45, blocked)
    }

    /// Each of the snap points grafted on in turn.
    pub open spec fn snapped_all(
        self,
        g: Grid,
        c: usize,
        snaps: Seq<Point>,
        allow45: bool,
        blocked: spec_fn(Point, Point) -> bool,
    ) -> Graft
        decreases snaps.len(),
    {
        if snaps.len() == 0 {
            self
        } else {
            self.snapped_all(g, c, snaps.drop_last(), allow45, blocked).snapped(
                g,
                c,
                snaps.last(),
                allow45,
                blocked,
            )
        }
    }
}

/// A terminal grafted on by its snap points.
pub open spec fn grafted(
    web: Web,
    g: Grid,
    centre: Point,
    snaps: Seq<Point>,
    allow45: bool,
    blocked: spec_fn(Point, Point) -> bool,
) -> Graft {
    let start = Graft {
        web: web.with_vertex(centre),
        record: Record { restore: Seq::empty(), cut: Seq::empty() },
    };
    start.snapped_all(g, web.vertex_of(centre) as usize, snaps, allow45, blocked)
}

/// The turn from the snap point through the grid point `p` to `other` is one a wire cannot make: a
/// slanted edge that leaves on the side the wire comes from.
pub open spec fn too_sharp(p: Point, snap: Point, other: Point) -> bool {
    &&& other != snap
    &&& p.0 != other.0 && p.1 != other.1
    &&& if p.1 == snap.1 {
        (p.0 < snap.0 && p.0 < other.0) || (p.0 > snap.0 && p.0 > other.0)
    } else {
        (p.1 < snap.1 && p.1 < other.1) || (p.1 > snap.1 && p.1 > other.1)
    }
}

/// The neighbours of `e` among `links` that a wire from the snap point cannot turn to.
pub open spec fn sharp(web: Web, links: Links, e: usize, snap: Point) -> Seq<usize>
    decreases links.len(),
{
    if links.len() == 0 {
        Seq::empty()
    } else {
        let rest = sharp(web, links.drop_last(), e, snap);
        let o = links.last().0;
        if too_sharp(web.points[e as int], snap, web.points[o as int]) {
            rest.push(o)
        } else {
            rest
        }
    }
}

pub open spec fn any_coordinate() -> spec_fn(i32) -> bool {
    |c: i32| true
}

/// The points on either side of a snap point, on its own grid line: above and below where it lies
/// on a column, left and right otherwise.
pub open spec fn between(g: Grid, snap: Point) -> (Option<Point>, Option<Point>) {
    if g.x@.contains(snap.0) {
        (
            match greatest_below(g.y@, snap.1 as int, any_coordinate()) {
                Some(y) => Some((snap.0, y)),
                None => None,
            },
            match least_above(g.y@, snap.1 as int, any_coordinate()) {
                Some(y) => Some((snap.0, y)),
                None => None,
            },
        )
    } else {
        (
            match greatest_below(g.x@, snap.0 as int, any_coordinate()) {
                Some(x) => Some((x, snap.1)),
                None => None,
            },
            match least_above(g.x@, snap.0 as int, any_coordinate()) {
                Some(x) => Some((x, snap.1)),
                None => None,
            },
        )
    }
}

/// A point's vertex, if there is a point and it has one.
pub open spec fn place_of(points: Seq<Point>, p: Option<Point>) -> Seq<usize> {
    match p {
        Some(p) => match slot(points, p) {
            Some(i) => seq![i as usize],
            None => Seq::empty(),
        },
        None => Seq::empty(),
    }
}

/// The vertices on either side of a snap point.
pub open spec fn ends_of(g: Grid, points: Seq<Point>, snap: Point) -> Seq<usize> {
    place_of(points, between(g, snap).0) + place_of(points, between(g, snap).1)
}

pub proof fn lemma_removed(s: Graft, a: usize, b: usize)
    requires
        s.wf(),
        a < s.web.points.len(),
        b < s.web.points.len(),
    ensures
        s.removed(a, b).wf(),
        s.removed(a, b).web.points == s.web.points,
        s.nonneg() ==> s.removed(a, b).nonneg(),
{
    lemma_severed(s.web, a, b);
    if let Some(w) = weight_to(s.web.adj[a as int], b) {
        if s.nonneg() {
            lemma_weight_to_nonneg(s.web, a, s.web.adj[a as int], b);
            lemma_recovered_unsigned(
                pt(s.web.points[a as int]),
                pt(s.web.points[b as int]),
                w as int,
            );
        }
    }
}

proof fn lemma_weight_to_nonneg(web: Web, a: usize, links: Links, b: usize)
    requires
        forall|k: int| 0 <= k < links.len() ==> (#[trigger] links[k]).1 >= 0,
    ensures
        weight_to(links, b) matches Some(w) ==> w >= 0,
    decreases links.len(),
{
    if links.len() > 0 && links[0].0 != b {
        assert forall|k: int| 0 <= k < links.drop_first().len() implies (
        #[trigger] links.drop_first()[k]).1 >= 0 by {
            assert(links[k + 1].1 >= 0);
        }
        lemma_weight_to_nonneg(web, a, links.drop_first(), b);
    }
}

pub proof fn lemma_attached(s: Graft, a: usize, b: usize)
    requires
        s.wf(),
        a < s.web.points.len(),
        b < s.web.points.len(),
    ensures
        s.attached(a, b).wf(),
        s.attached(a, b).web.points == s.web.points,
        s.nonneg() ==> s.attached(a, b).nonneg(),
{
    let (p, q) = (pt(s.web.points[a as int]), pt(s.web.points[b as int]));
    lemma_weight_unsigned(p, q, Single::unity());
    lemma_joined(s.web, a, b, weight(p, q, Single::unity()) as i64);
}

/// Take an edge out, and record it if there was one.
pub fn take_out(graph: &mut Graph, undo: &mut Undo, a: usize, b: usize)
    requires
        old(graph).wf(),
        graft_of(*old(graph), *old(undo)).wf(),
        a < old(graph)@.points.len(),
        b < old(graph)@.points.len(),
    ensures
        final(graph).wf(),
        graft_of(*final(graph), *final(undo)) == graft_of(*old(graph), *old(undo)).removed(a, b),
{
    if let Some(w) = graph.weight_between(a, b) {
        let scale = restore_scale(graph.points[a], graph.points[b], w);
        undo.restore.push((a, b, scale));
    }
    graph.cut(a, b);
}

/// Put an edge in, and record it.
fn put_in(graph: &mut Graph, undo: &mut Undo, a: usize, b: usize)
    requires
        old(graph).wf(),
        graft_of(*old(graph), *old(undo)).wf(),
        a < old(graph)@.points.len(),
        b < old(graph)@.points.len(),
    ensures
        final(graph).wf(),
        graft_of(*final(graph), *final(undo)) == graft_of(*old(graph), *old(undo)).attached(a, b),
{
    let w: i64 = edge_weight(graph.points[a], graph.points[b], Single::one());
    graph.join(a, b, w);
    undo.cut.push((a, b));
}

fn turns_back(p: Point, snap: Point, other: Point) -> (b: bool)
    ensures
        b == too_sharp(p, snap, other),
{
    if same_point(other, snap) || p.0 == other.0 || p.1 == other.1 {
        return false;
    }
    if p.1 == snap.1 {
        (p.0 < snap.0 && p.0 < other.0) || (p.0 > snap.0 && p.0 > other.0)
    } else {
        (p.1 < snap.1 && p.1 < other.1) || (p.1 > snap.1 && p.1 > other.1)
    }
}

/// Take out what a wire from the snap point cannot turn to at `e`.
fn prune(graph: &mut Graph, undo: &mut Undo, e: usize, snap: Point)
    requires
        old(graph).wf(),
        graft_of(*old(graph), *old(undo)).wf(),
        e < old(graph)@.points.len(),
    ensures
        final(graph).wf(),
        ({
            let s = graft_of(*old(graph), *old(undo));
            let t = graft_of(*final(graph), *final(undo));
            &&& t == s.removed_all(e, sharp(s.web, s.web.adj[e as int], e, snap))
            &&& t.wf()
            &&& t.web.points == s.web.points
            &&& s.nonneg() ==> t.nonneg()
        }),
{
    let ghost s = graft_of(*graph, *undo);
    let ghost n = graph@.points.len();
    let mut doomed: Vec<usize> = Vec::new();
    let mut k: usize = 0;
    let p = graph.points[e];
    let links = &graph.adj[e];
    assert(links@.take(0) =~= Seq::<(usize, i64)>::empty());
    while k < links.len()
        invariant
            k <= links.len(),
            e < n,
            s.wf(),
            s.web == graph@,
            n == graph@.points.len(),
            links@ == s.web.adj[e as int],
            p == s.web.points[e as int],
            doomed@ == sharp(s.web, links@.take(k as int), e, snap),
            forall|i: int| 0 <= i < doomed@.len() ==> #[trigger] doomed@[i] < n,
        decreases links.len() - k,
    {
        assert(links@.take(k + 1).drop_last() =~= links@.take(k as int));
        let o: usize = links[k].0;
        assert(s.web.adj[e as int][k as int].0 < n);
        if turns_back(p, snap, graph.points[o]) {
            doomed.push(o);
        }
        k += 1;
    }
    assert(links@.take(links@.len() as int) =~= links@);
    k = 0;
    assert(doomed@.take(0) =~= Seq::<usize>::empty());
    while k < doomed.len()
        invariant
            k <= doomed.len(),
            e < n,
            graph.wf(),
            n == graph@.points.len(),
            forall|i: int| 0 <= i < doomed@.len() ==> #[trigger] doomed@[i] < n,
            ({
                let t = graft_of(*graph, *undo);
                &&& t == s.removed_all(e, doomed@.take(k as int))
                &&& t.wf()
                &&& t.web.points == s.web.points
                &&& s.nonneg() ==> t.nonneg()
            }),
        decreases doomed.len() - k,
    {
        assert(doomed@.take(k + 1).drop_last() =~= doomed@.take(k as int));
        let o: usize = doomed[k];
        proof {
            lemma_removed(graft_of(*graph, *undo), e, o);
        }
        take_out(graph, undo, e, o);
        k += 1;
    }
    assert(doomed@.take(doomed@.len() as int) =~= doomed@);
}

/// What every step of grafting keeps: the record speaks of the graph's vertices, no vertex is
/// renumbered, and no cost falls below nothing.
pub open spec fn sound(s: Graft, t: Graft) -> bool {
    &&& t.wf()
    &&& s.web.points.is_prefix_of(t.web.points)
    &&& s.nonneg() ==> t.nonneg()
}

/// The vertex of a point, if there is a point and it has one.
fn place(graph: &Graph, p: Option<Point>, out: &mut Vec<usize>)
    requires
        graph.wf(),
    ensures
        final(out)@ == old(out)@ + place_of(graph@.points, p),
        forall|i: int|
            old(out)@.len() <= i < final(out)@.len() ==> #[trigger] final(out)@[i]
                < graph@.points.len(),
{
    if let Some(p) = p {
        if let Some(i) = graph.find(p) {
            out.push(i);
        }
    }
    assert(out@ =~= old(out)@ + place_of(graph@.points, p));
}

/// The vertices on either side of a snap point.
fn ends(graph: &Graph, g: &Grid, snap: Point) -> (out: Vec<usize>)
    requires
        graph.wf(),
    ensures
        out@ == ends_of(*g, graph@.points, snap),
        forall|i: int| 0 <= i < out@.len() ==> #[trigger] out@[i] < graph@.points.len(),
{
    let any = |c: i32| -> (r: bool)
        ensures
            r,
        { true };
    assert(follows_on(any, any_coordinate()));
    let on_column = holds(&g.x, snap.0);
    let (low, high): (Option<Point>, Option<Point>) = if on_column {
        let (below, above) = neighbours_of(&g.y, snap.1, &any);
        (
            match below {
                Some(y) => Some((snap.0, y)),
                None => None,
            },
            match above {
                Some(y) => Some((snap.0, y)),
                None => None,
            },
        )
    } else {
        let (left, right) = neighbours_of(&g.x, snap.0, &any);
        (
            match left {
                Some(x) => Some((x, snap.1)),
                None => None,
            },
            match right {
                Some(x) => Some((x, snap.1)),
                None => None,
            },
        )
    };
    assert((low, high) == between(*g, snap));
    let mut out: Vec<usize> = Vec::new();
    place(graph, low, &mut out);
    place(graph, high, &mut out);
    assert(out@ =~= ends_of(*g, graph@.points, snap));
    out
}

fn holds(axis: &[i32], at: i32) -> (b: bool)
    ensures
        b == axis@.contains(at),
{
    let mut i: usize = 0;
    while i < axis.len()
        invariant
            i <= axis.len(),
            forall|k: int| 0 <= k < i ==> axis@[k] != at,
        decreases axis.len() - i,
    {
        if axis[i] == at {
            assert(axis@[i as int] == at);
            return true;
        }
        i += 1;
    }
    false
}

/// Join a snap point to one of the grid points it lies between.
fn reach<F: Fn(Point, Point) -> bool>(
    graph: &mut Graph,
    undo: &mut Undo,
    sv: usize,
    e: usize,
    allow45: bool,
    obstructed: &F,
)
    requires
        old(graph).wf(),
        graft_of(*old(graph), *old(undo)).wf(),
        sv < old(graph)@.points.len(),
        e < old(graph)@.points.len(),
        total(*obstructed),
    ensures
        final(graph).wf(),
        sound(graft_of(*old(graph), *old(undo)), graft_of(*final(graph), *final(undo))),
        final(graph)@.points == old(graph)@.points,
        forall|rule: spec_fn(Point, Point) -> bool| #[trigger]
            follows(*obstructed, rule) ==> graft_of(*final(graph), *final(undo)) == graft_of(
                *old(graph),
                *old(undo),
            ).reached(sv, e, allow45, rule),
{
    let snap = graph.points[sv];
    let p = graph.points[e];
    if obstructed(snap, p) {
        return;
    }
    proof {
        lemma_attached(graft_of(*graph, *undo), sv, e);
    }
    put_in(graph, undo, sv, e);
    if allow45 {
        prune(graph, undo, e, snap);
    }
}

/// Graft one snap point on.
fn snap_on<F: Fn(Point, Point) -> bool>(
    graph: &mut Graph,
    undo: &mut Undo,
    g: &Grid,
    c: usize,
    snap: Point,
    allow45: bool,
    obstructed: &F,
)
    requires
        old(graph).wf(),
        graft_of(*old(graph), *old(undo)).wf(),
        c < old(graph)@.points.len(),
        total(*obstructed),
    ensures
        final(graph).wf(),
        sound(graft_of(*old(graph), *old(undo)), graft_of(*final(graph), *final(undo))),
        forall|rule: spec_fn(Point, Point) -> bool| #[trigger]
            follows(*obstructed, rule) ==> graft_of(*final(graph), *final(undo)) == graft_of(
                *old(graph),
                *old(undo),
            ).snapped(*g, c, snap, allow45, rule),
{
    let ghost s0 = graft_of(*graph, *undo);
    let ends = ends(graph, g, snap);
    if ends.len() == 2 {
        proof {
            assert(ends@[0] < graph@.points.len() && ends@[1] < graph@.points.len());
            lemma_removed(graft_of(*graph, *undo), ends@[0], ends@[1]);
        }
        take_out(graph, undo, ends[0], ends[1]);
    }
    let ghost s1 = graft_of(*graph, *undo);
    let sv: usize = graph.vertex(snap);
    proof {
        lemma_with_vertex(s1.web, snap);
        assert(graft_of(*graph, *undo) == s1.with_vertex(snap));
        assert(s1.with_vertex(snap).wf());
        lemma_attached(graft_of(*graph, *undo), sv, c);
    }
    put_in(graph, undo, sv, c);
    let ghost s2 = graft_of(*graph, *undo);
    assert(sound(s0, s2));
    let mut k: usize = 0;
    assert(ends@.take(0) =~= Seq::<usize>::empty());
    while k < ends.len()
        invariant
            k <= ends.len(),
            graph.wf(),
            sv < s2.web.points.len(),
            graph@.points == s2.web.points,
            forall|i: int| 0 <= i < ends@.len() ==> #[trigger] ends@[i] < s2.web.points.len(),
            total(*obstructed),
            sound(s0, graft_of(*graph, *undo)),
            forall|rule: spec_fn(Point, Point) -> bool| #[trigger]
                follows(*obstructed, rule) ==> graft_of(*graph, *undo) == s2.reached_all(
                    sv,
                    ends@.take(k as int),
                    allow45,
                    rule,
                ),
        decreases ends.len() - k,
    {
        assert(ends@.take(k + 1).drop_last() =~= ends@.take(k as int));
        reach(graph, undo, sv, ends[k], allow45, obstructed);
        k += 1;
    }
    assert(ends@.take(ends@.len() as int) =~= ends@);
}

/// Graft a terminal onto the grid.
///
/// A snap point lies on a grid line but between two grid points, so it splits the edge it sits on:
/// that edge is removed, the snap becomes a vertex joined to both former endpoints, and it is
/// joined to the terminal's centre.
///
/// The edge to the centre is added without an obstruction check: it runs through the terminal's own
/// pin metal by construction, and checking it would refuse every terminal. The edges to the grid
/// points are checked. Where slanted edges are allowed, one that leaves a grid point towards the
/// side the access edge arrives from is a turn a wire cannot make, and it is taken out, right after
/// that access edge is added.
pub fn insert_access<F: Fn(Point, Point) -> bool>(
    graph: &mut Graph,
    g: &Grid,
    centre: Point,
    snaps: &[Point],
    allow45: bool,
    obstructed: &F,
) -> (undo: Undo)
    requires
        old(graph).wf(),
        total(*obstructed),
    ensures
        final(graph).wf(),
        undo@.within(final(graph)@.points.len() as int),
        old(graph)@.points.is_prefix_of(final(graph)@.points),
        old(graph)@.nonneg() ==> final(graph)@.nonneg() && undo@.nonneg(),
        forall|rule: spec_fn(Point, Point) -> bool| #[trigger]
            follows(*obstructed, rule) ==> graft_of(*final(graph), undo) == grafted(
                old(graph)@,
                *g,
                centre,
                snaps@,
                allow45,
                rule,
            ),
{
    let mut undo = Undo::default();
    proof {
        lemma_with_vertex(graph@, centre);
    }
    let ghost before = graph@;
    let c: usize = graph.vertex(centre);
    let ghost start = graft_of(*graph, undo);
    let mut k: usize = 0;
    assert(snaps@.take(0) =~= Seq::<Point>::empty());
    while k < snaps.len()
        invariant
            k <= snaps.len(),
            graph.wf(),
            c < start.web.points.len(),
            before.points.is_prefix_of(start.web.points),
            before.nonneg() ==> start.nonneg(),
            total(*obstructed),
            sound(start, graft_of(*graph, undo)),
            forall|rule: spec_fn(Point, Point) -> bool| #[trigger]
                follows(*obstructed, rule) ==> graft_of(*graph, undo) == start.snapped_all(
                    *g,
                    c,
                    snaps@.take(k as int),
                    allow45,
                    rule,
                ),
        decreases snaps.len() - k,
    {
        assert(snaps@.take(k + 1).drop_last() =~= snaps@.take(k as int));
        snap_on(graph, &mut undo, g, c, snaps[k], allow45, obstructed);
        k += 1;
    }
    assert(snaps@.take(snaps@.len() as int) =~= snaps@);
    undo
}

/// A wire that comes from a snap point on the row or the column of a grid point cannot go on along a slanted
/// edge that makes less than a right angle with the way it came.
pub proof fn law_too_sharp(p: Point, snap: Point, other: Point)
    requires
        snap != p,
        snap.0 == p.0 || snap.1 == p.1,
    ensures
        too_sharp(p, snap, other) <==> {
            let (came, goes) = (
                (snap.0 - p.0, snap.1 - p.1),
                (other.0 - p.0, other.1 - p.1),
            );
            goes.0 != 0 && goes.1 != 0 && came.0 * goes.0 + came.1 * goes.1 > 0
        },
{
    let (a, b) = (snap.0 - p.0, other.0 - p.0);
    let (c, d) = (snap.1 - p.1, other.1 - p.1);
    assert(a * b > 0 <==> (a > 0 && b > 0) || (a < 0 && b < 0)) by (nonlinear_arith);
    assert(c * d > 0 <==> (c > 0 && d > 0) || (c < 0 && d < 0)) by (nonlinear_arith);
    assert(a == 0 ==> a * b == 0) by (nonlinear_arith);
    assert(c == 0 ==> c * d == 0) by (nonlinear_arith);
}

/// What is taken out at a grid point are its edges that make too sharp a turn, and no others.
pub proof fn law_sharp_edges(web: Web, links: Links, e: usize, snap: Point, o: usize)
    ensures
        sharp(web, links, e, snap).contains(o) <==> too_sharp(
            web.points[e as int],
            snap,
            web.points[o as int],
        ) && exists|k: int| 0 <= k < links.len() && (#[trigger] links[k]).0 == o,
    decreases links.len(),
{
    if links.len() > 0 {
        let head = links.drop_last();
        law_sharp_edges(web, head, e, snap, o);
        let last = links.last().0;
        crate::lists::lemma_push_contains(sharp(web, head, e, snap), last, o);
        assert(links[links.len() - 1].0 == last);
        if exists|k: int| 0 <= k < head.len() && (#[trigger] head[k]).0 == o {
            let k = choose|k: int| 0 <= k < head.len() && (#[trigger] head[k]).0 == o;
            assert(links[k].0 == o);
        }
        if exists|k: int| 0 <= k < links.len() && (#[trigger] links[k]).0 == o {
            let k = choose|k: int| 0 <= k < links.len() && (#[trigger] links[k]).0 == o;
            if k < head.len() {
                assert(head[k].0 == o);
            }
        }
    }
}

/// The coordinate is the nearest of the axis below `at`, or above it, if there is one.
pub open spec fn is_next(axis: Seq<i32>, at: i32, below: bool, c: Option<i32>) -> bool {
    match c {
        Some(c) => {
            &&& axis.contains(c) && (below ==> c < at) && (!below ==> at < c)
            &&& forall|i: int|
                0 <= i < axis.len() ==> !(c < #[trigger] axis[i] < at) && !(at < axis[i] < c)
        },
        None => forall|i: int|
            0 <= i < axis.len() ==> (below ==> #[trigger] axis[i] >= at) && (!below ==> axis[i]
                <= at),
    }
}

/// The points a snap point lies between: on a column, the nearest below and above it; elsewhere, on its row,
/// the nearest to its left and to its right.
pub proof fn law_snap_lies_between(g: Grid, snap: Point)
    ensures
        ({
            let (a, b) = between(g, snap);
            let column = g.x@.contains(snap.0);
            &&& a matches Some(p) ==> if column { p.0 == snap.0 } else { p.1 == snap.1 }
            &&& b matches Some(p) ==> if column { p.0 == snap.0 } else { p.1 == snap.1 }
            &&& column ==> is_next(
                g.y@,
                snap.1,
                true,
                match a {
                    Some(p) => Some(p.1),
                    None => None,
                },
            )
            &&& column ==> is_next(
                g.y@,
                snap.1,
                false,
                match b {
                    Some(p) => Some(p.1),
                    None => None,
                },
            )
            &&& !column ==> is_next(
                g.x@,
                snap.0,
                true,
                match a {
                    Some(p) => Some(p.0),
                    None => None,
                },
            )
            &&& !column ==> is_next(
                g.x@,
                snap.0,
                false,
                match b {
                    Some(p) => Some(p.0),
                    None => None,
                },
            )
        }),
{
    if g.x@.contains(snap.0) {
        lemma_is_next(g.y@, snap.1);
    } else {
        lemma_is_next(g.x@, snap.0);
    }
}

proof fn lemma_is_next(axis: Seq<i32>, at: i32)
    ensures
        is_next(axis, at, true, greatest_below(axis, at as int, any_coordinate())),
        is_next(axis, at, false, least_above(axis, at as int, any_coordinate())),
{
    let keep = any_coordinate();
    crate::rdl::access::lemma_nearest_member(axis, at as int, keep);
    assert forall|i: int| 0 <= i < axis.len() implies (axis[i] < at ==> (greatest_below(
        axis,
        at as int,
        keep,
    ) matches Some(c) && #[trigger] axis[i] <= c)) && (axis[i] > at ==> (least_above(
        axis,
        at as int,
        keep,
    ) matches Some(c) && c <= axis[i])) by {
        crate::rdl::access::law_nearest(axis, at as int, keep, i);
    }
}

} // verus!
