//! The routing graph: points, and weighted neighbours.

use crate::geom::{pt, Point};
use crate::lists::copy_list;
use crate::rdl::cost::{edge_weight, lemma_weight_unsigned, weight};
use crate::rdl::grid::{crossings, Grid};
use crate::rdl::mesh::{follows, total};
use crate::single::Single;
use std::collections::HashMap;
use vstd::prelude::*;

verus! {

broadcast use vstd::std_specs::hash::group_hash_axioms;

/// A vertex's neighbours, each with the weight of the edge to it.
pub type Links = Seq<(usize, i64)>;

/// What a graph holds: its vertices' points, and each vertex's neighbours in order.
pub struct Web {
    pub points: Seq<Point>,
    pub adj: Seq<Links>,
}

/// The routing graph.
#[derive(Debug)]
pub struct Graph {
    pub points: Vec<Point>,
    /// Where each point stands in `points`, by its [`key`].
    pub index: HashMap<u64, usize>,
    pub adj: Vec<Vec<(usize, i64)>>,
}

/// A point as one number.
pub open spec fn key_of(p: Point) -> int {
    (p.0 + 0x8000_0000) * 0x1_0000_0000 + (p.1 + 0x8000_0000)
}

/// A point as one number, no two points alike.
pub fn key(p: Point) -> (k: u64)
    ensures
        k == key_of(p),
{
    (p.0 as i64 + 0x8000_0000) as u64 * 0x1_0000_0000 + (p.1 as i64 + 0x8000_0000) as u64
}

/// The last place at which a point stands.
pub open spec fn slot(points: Seq<Point>, p: Point) -> Option<int>
    decreases points.len(),
{
    if points.len() == 0 {
        None
    } else if points.last() == p {
        Some(points.len() - 1)
    } else {
        slot(points.drop_last(), p)
    }
}

/// A point's place is one where it stands.
pub proof fn lemma_slot(points: Seq<Point>, p: Point)
    ensures
        slot(points, p) matches Some(i) ==> 0 <= i < points.len() && points[i] == p,
        slot(points, p) is None ==> !points.contains(p),
    decreases points.len(),
{
    if points.len() > 0 {
        lemma_slot(points.drop_last(), p);
        if points.last() != p && points.contains(p) {
            let k = choose|k: int| 0 <= k < points.len() && points[k] == p;
            assert(points.drop_last()[k] == p);
        }
    }
}

/// The index finds every point at its last place, and nothing else.
pub open spec fn indexes(index: Map<u64, usize>, points: Seq<Point>) -> bool {
    forall|p: Point|
        match #[trigger] slot(points, p) {
            Some(i) => index.contains_key(key_of(p) as u64) && index[key_of(p) as u64] == i,
            None => !index.contains_key(key_of(p) as u64),
        }
}

/// Every neighbour of every vertex is a vertex.
pub open spec fn closed_under(adj: Seq<Links>, n: int) -> bool {
    forall|i: int, k: int|
        0 <= i < adj.len() && 0 <= k < adj[i].len() ==> (#[trigger] adj[i][k]).0 < n
}

/// The first weight that leads to `b`.
pub open spec fn weight_to(links: Links, b: usize) -> Option<i64>
    decreases links.len(),
{
    if links.len() == 0 {
        None
    } else if links[0].0 == b {
        Some(links[0].1)
    } else {
        weight_to(links.drop_first(), b)
    }
}

/// The neighbours that are not `b`.
pub open spec fn without(links: Links, b: usize) -> Links
    decreases links.len(),
{
    if links.len() == 0 {
        Seq::empty()
    } else {
        let rest = without(links.drop_last(), b);
        if links.last().0 != b {
            rest.push(links.last())
        } else {
            rest
        }
    }
}

/// `b` is among the neighbours.
pub open spec fn leads_to(links: Links, b: usize) -> bool {
    exists|k: int| 0 <= k < links.len() && (#[trigger] links[k]).0 == b
}

impl Web {
    pub open spec fn wf(self) -> bool {
        &&& self.adj.len() == self.points.len()
        &&& closed_under(self.adj, self.points.len() as int)
    }

    /// The web with a vertex at a point, which it may have had.
    pub open spec fn with_vertex(self, p: Point) -> Web {
        match slot(self.points, p) {
            Some(_) => self,
            None => Web { points: self.points.push(p), adj: self.adj.push(Seq::empty()) },
        }
    }

    /// Where a point stands in [`Web::with_vertex`].
    pub open spec fn vertex_of(self, p: Point) -> int {
        match slot(self.points, p) {
            Some(i) => i,
            None => self.points.len() as int,
        }
    }

    /// The web with one more edge between `a` and `b`.
    pub open spec fn linked(self, a: usize, b: usize, w: i64) -> Web {
        let one = self.adj.update(a as int, self.adj[a as int].push((b, w)));
        Web { points: self.points, adj: one.update(b as int, one[b as int].push((a, w))) }
    }

    /// The web with `a` and `b` joined: they must be two, and an edge there was stays as it was.
    pub open spec fn joined(self, a: usize, b: usize, w: i64) -> Web {
        if a != b && !leads_to(self.adj[a as int], b) {
            self.linked(a, b, w)
        } else {
            self
        }
    }

    /// The web with no edge between `a` and `b`.
    pub open spec fn severed(self, a: usize, b: usize) -> Web {
        let one = self.adj.update(a as int, without(self.adj[a as int], b));
        Web { points: self.points, adj: one.update(b as int, without(one[b as int], a)) }
    }

    /// The web with each of the listed edges between its vertices added.
    pub open spec fn with_edges(self, edges: Seq<(Point, Point)>, scale: Single) -> Web
        decreases edges.len(),
    {
        if edges.len() == 0 {
            self
        } else {
            let sofar = self.with_edges(edges.drop_last(), scale);
            let (a, b) = edges.last();
            match (slot(self.points, a), slot(self.points, b)) {
                (Some(i), Some(j)) => sofar.linked(
                    i as usize,
                    j as usize,
                    weight(pt(a), pt(b), scale) as i64,
                ),
                _ => sofar,
            }
        }
    }

    /// The web with the listed edges cut.
    pub open spec fn cut_all(self, cut: Seq<(usize, usize)>) -> Web
        decreases cut.len(),
    {
        if cut.len() == 0 {
            self
        } else {
            self.cut_all(cut.drop_last()).severed(cut.last().0, cut.last().1)
        }
    }

    /// The web with those of the listed edges put back that are not blocked.
    pub open spec fn restored(
        self,
        list: Seq<(usize, usize, Single)>,
        blocked: spec_fn(Point, Point) -> bool,
    ) -> Web
        decreases list.len(),
    {
        if list.len() == 0 {
            self
        } else {
            let sofar = self.restored(list.drop_last(), blocked);
            let (a, b, scale) = list.last();
            let (p, q) = (self.points[a as int], self.points[b as int]);
            if blocked(p, q) {
                sofar
            } else {
                sofar.joined(a, b, weight(pt(p), pt(q), scale) as i64)
            }
        }
    }
}

/// The web of a grid and some edges: every grid point is a vertex, edge or none.
pub open spec fn web_of(g: Grid, edges: Seq<(Point, Point)>, scale: Single) -> Web {
    let points = crossings(g.x@, g.y@);
    Web { points, adj: Seq::new(points.len(), |i: int| Seq::empty()) }.with_edges(edges, scale)
}

impl View for Graph {
    type V = Web;

    open spec fn view(&self) -> Web {
        Web {
            points: self.points@,
            adj: Seq::new(self.adj@.len(), |i: int| self.adj@[i]@),
        }
    }
}

impl Clone for Graph {
    fn clone(&self) -> (copy: Graph)
        ensures
            copy@ == self@,
            self@.wf() ==> copy.wf(),
    {
        let mut index: HashMap<u64, usize> = HashMap::new();
        let mut adj: Vec<Vec<(usize, i64)>> = Vec::new();
        let mut i: usize = 0;
        assert(self.points@.take(0) =~= Seq::<Point>::empty());
        while i < self.points.len()
            invariant
                i <= self.points.len(),
                indexes(index@, self.points@.take(i as int)),
            decreases self.points.len() - i,
        {
            let p = self.points[i];
            proof {
                lemma_indexed(index@, self.points@.take(i as int), p, i);
                assert(self.points@.take(i as int).push(p) =~= self.points@.take(i + 1));
            }
            index.insert(key(p), i);
            i += 1;
        }
        assert(self.points@.take(self.points@.len() as int) =~= self.points@);
        i = 0;
        while i < self.adj.len()
            invariant
                i <= self.adj.len(),
                adj.len() == i,
                forall|k: int| 0 <= k < i ==> (#[trigger] adj@[k])@ == self.adj@[k]@,
            decreases self.adj.len() - i,
        {
            adj.push(copy_list(&self.adj[i]));
            i += 1;
        }
        let copy = Graph { points: copy_list(&self.points), index, adj };
        assert(copy@.adj =~= self@.adj);
        copy
    }
}

impl Default for Graph {
    fn default() -> (g: Graph)
        ensures
            g.wf(),
            g@.points.len() == 0,
    {
        let g = Graph { points: Vec::new(), index: HashMap::new(), adj: Vec::new() };
        g
    }
}

impl Graph {
    pub open spec fn wf(self) -> bool {
        &&& self@.wf()
        &&& indexes(self.index@, self.points@)
    }

    /// Where a point stands.
    pub fn find(&self, p: Point) -> (i: Option<usize>)
        requires
            self.wf(),
        ensures
            i matches Some(k) ==> slot(self@.points, p) == Some(k as int) && k < self@.points.len(),
            i is None ==> slot(self@.points, p) is None,
    {
        proof {
            lemma_slot(self.points@, p);
        }
        match self.index.get(&key(p)) {
            Some(i) => Some(*i),
            None => None,
        }
    }

    /// The vertex at a point, made where there was none.
    pub fn vertex(&mut self, p: Point) -> (i: usize)
        requires
            old(self).wf(),
        ensures
            final(self).wf(),
            final(self)@ == old(self)@.with_vertex(p),
            i == old(self)@.vertex_of(p),
            i < final(self)@.points.len(),
            final(self)@.points[i as int] == p,
    {
        proof {
            lemma_slot(self.points@, p);
        }
        if let Some(i) = self.find(p) {
            return i;
        }
        let i: usize = self.points.len();
        self.points.push(p);
        self.index.insert(key(p), i);
        self.adj.push(Vec::new());
        proof {
            lemma_indexed(old(self).index@, old(self).points@, p, i);
        }
        assert(self@.adj =~= old(self)@.adj.push(Seq::empty()));
        i
    }

    /// Join two vertices, unless they are one or already have an edge.
    pub fn join(&mut self, a: usize, b: usize, w: i64)
        requires
            old(self).wf(),
            a < old(self)@.points.len(),
            b < old(self)@.points.len(),
        ensures
            final(self).wf(),
            final(self)@ == old(self)@.joined(a, b, w),
    {
        if a != b && !linked_to(&self.adj[a], b) {
            self.link(a, b, w);
        }
    }

    fn link(&mut self, a: usize, b: usize, w: i64)
        requires
            old(self).wf(),
            a < old(self)@.points.len(),
            b < old(self)@.points.len(),
        ensures
            final(self).wf(),
            final(self)@ == old(self)@.linked(a, b, w),
    {
        self.adj[a].push((b, w));
        self.adj[b].push((a, w));
        assert(self@.adj =~= old(self)@.linked(a, b, w).adj);
    }

    /// Remove every edge between two vertices.
    pub fn cut(&mut self, a: usize, b: usize)
        requires
            old(self).wf(),
            a < old(self)@.points.len(),
            b < old(self)@.points.len(),
        ensures
            final(self).wf(),
            final(self)@ == old(self)@.severed(a, b),
    {
        let left = links_without(&self.adj[a], b);
        self.adj.set(a, left);
        let right = links_without(&self.adj[b], a);
        self.adj.set(b, right);
        assert(self@.adj =~= old(self)@.severed(a, b).adj);
    }

    /// The weight of the edge from `a` to `b`, if there is one.
    pub fn weight_between(&self, a: usize, b: usize) -> (w: Option<i64>)
        requires
            self.wf(),
            a < self@.points.len(),
        ensures
            w == weight_to(self@.adj[a as int], b),
    {
        first_weight(&self.adj[a], b)
    }

    /// The graph of a grid and the edges that survived obstruction filtering.
    ///
    /// Every grid point becomes a vertex, including points with no edges at all, and vertex
    /// numbering follows from it: x outer, y inner.
    pub fn build(g: &Grid, edges: &[(Point, Point)], scale: Single) -> (graph: Graph)
        ensures
            graph.wf(),
            graph@ == web_of(*g, edges@, scale),
    {
        let points = g.points();
        let mut index: HashMap<u64, usize> = HashMap::new();
        let mut adj: Vec<Vec<(usize, i64)>> = Vec::new();
        let mut i: usize = 0;
        assert(points@.take(0) =~= Seq::<Point>::empty());
        while i < points.len()
            invariant
                i <= points.len(),
                adj.len() == i,
                forall|k: int| 0 <= k < i ==> (#[trigger] adj@[k])@ == Seq::<(usize, i64)>::empty(),
                indexes(index@, points@.take(i as int)),
            decreases points.len() - i,
        {
            let p = points[i];
            proof {
                lemma_indexed(index@, points@.take(i as int), p, i);
                assert(points@.take(i as int).push(p) =~= points@.take(i + 1));
            }
            index.insert(key(p), i);
            adj.push(Vec::new());
            i += 1;
        }
        assert(points@.take(points@.len() as int) =~= points@);
        let mut graph = Graph { points, index, adj };
        let ghost bare = graph@;
        assert(bare.adj =~= Seq::new(bare.points.len(), |i: int| Seq::empty()));
        assert(edges@.take(0) =~= Seq::<(Point, Point)>::empty());
        i = 0;
        while i < edges.len()
            invariant
                i <= edges.len(),
                graph.wf(),
                graph@.points == bare.points,
                graph@ == bare.with_edges(edges@.take(i as int), scale),
            decreases edges.len() - i,
        {
            let (a, b) = edges[i];
            assert(edges@.take(i + 1).drop_last() =~= edges@.take(i as int));
            if let (Some(ia), Some(ib)) = (graph.find(a), graph.find(b)) {
                let w: i64 = edge_weight(a, b, scale);
                graph.link(ia, ib, w);
            }
            i += 1;
        }
        assert(edges@.take(edges@.len() as int) =~= edges@);
        graph
    }

    /// Put the graph back as it was before the change `undo` records.
    pub fn undo(&mut self, undo: &Undo)
        requires
            old(self).wf(),
            undo@.within(old(self)@.points.len() as int),
        ensures
            final(self).wf(),
            final(self)@ == old(self)@.undone(undo@, nothing_blocked()),
    {
        let never = |a: Point, b: Point| -> (r: bool)
            ensures
                !r,
            { false };
        undo_access(self, undo, &never);
        assert(follows(never, nothing_blocked()));
    }
}

impl Web {
    /// The web with a recorded change undone: what was added is cut, and what was removed is put
    /// back where it is not blocked.
    pub open spec fn undone(self, undo: Record, blocked: spec_fn(Point, Point) -> bool) -> Web {
        self.cut_all(undo.cut).restored(undo.restore, blocked)
    }
}

/// Nothing is blocked.
pub open spec fn nothing_blocked() -> spec_fn(Point, Point) -> bool {
    |p: Point, q: Point| false
}

/// What a record of a change holds.
pub struct Record {
    pub restore: Seq<(usize, usize, Single)>,
    pub cut: Seq<(usize, usize)>,
}

/// Edges to put back when a temporary change is undone.
#[derive(Debug)]
pub struct Undo {
    /// Two vertices and the scale their edge is put back with, recovered by division from the
    /// weight it had.
    pub restore: Vec<(usize, usize, Single)>,
    pub cut: Vec<(usize, usize)>,
}

impl Clone for Undo {
    fn clone(&self) -> (copy: Undo)
        ensures
            copy@ == self@,
    {
        Undo { restore: copy_list(&self.restore), cut: copy_list(&self.cut) }
    }
}

impl Default for Undo {
    fn default() -> (u: Undo)
        ensures
            u@.restore == Seq::<(usize, usize, Single)>::empty(),
            u@.cut == Seq::<(usize, usize)>::empty(),
    {
        Undo { restore: Vec::new(), cut: Vec::new() }
    }
}

impl View for Undo {
    type V = Record;

    open spec fn view(&self) -> Record {
        Record { restore: self.restore@, cut: self.cut@ }
    }
}

impl Record {
    /// Every vertex it speaks of is among the first `n`.
    pub open spec fn within(self, n: int) -> bool {
        &&& forall|i: int|
            0 <= i < self.restore.len() ==> (#[trigger] self.restore[i]).0 < n
                && self.restore[i].1 < n
        &&& forall|i: int|
            0 <= i < self.cut.len() ==> (#[trigger] self.cut[i]).0 < n && self.cut[i].1 < n
    }

    /// No edge is put back with a scale below zero.
    pub open spec fn nonneg(self) -> bool {
        forall|i: int| 0 <= i < self.restore.len() ==> (#[trigger] self.restore[i]).2.unsigned()
    }
}

/// Undo a terminal's access, but with the checks on.
///
/// An edge that was removed to make room for a terminal's access is put back only if it is still
/// clear. One that has come to conflict is never restored, and the graph loses that resource for
/// the rest of the run.
pub fn undo_access<F: Fn(Point, Point) -> bool>(graph: &mut Graph, undo: &Undo, blocked_edge: &F)
    requires
        old(graph).wf(),
        undo@.within(old(graph)@.points.len() as int),
        total(*blocked_edge),
    ensures
        final(graph).wf(),
        final(graph)@.points == old(graph)@.points,
        old(graph)@.nonneg() && undo@.nonneg() ==> final(graph)@.nonneg(),
        forall|rule: spec_fn(Point, Point) -> bool| #[trigger]
            follows(*blocked_edge, rule) ==> final(graph)@ == old(graph)@.undone(undo@, rule),
{
    let ghost start = graph@;
    let ghost n = graph@.points.len() as int;
    let mut i: usize = 0;
    assert(undo.cut@.take(0) =~= Seq::<(usize, usize)>::empty());
    while i < undo.cut.len()
        invariant
            i <= undo.cut.len(),
            graph.wf(),
            undo@.within(n),
            n == graph@.points.len(),
            graph@.points == start.points,
            graph@ == start.cut_all(undo.cut@.take(i as int)),
        decreases undo.cut.len() - i,
    {
        assert(undo.cut@.take(i + 1).drop_last() =~= undo.cut@.take(i as int));
        let (a, b) = undo.cut[i];
        assert(undo@.cut[i as int].0 < n);
        graph.cut(a, b);
        i += 1;
    }
    assert(undo.cut@.take(undo.cut@.len() as int) =~= undo.cut@);
    let ghost cleared = graph@;
    proof {
        lemma_cut_all(start, undo@.cut);
    }
    i = 0;
    assert(undo.restore@.take(0) =~= Seq::<(usize, usize, Single)>::empty());
    while i < undo.restore.len()
        invariant
            i <= undo.restore.len(),
            graph.wf(),
            undo@.within(n),
            n == graph@.points.len(),
            total(*blocked_edge),
            cleared.nonneg() && undo@.nonneg() ==> graph@.nonneg(),
            graph@.points == cleared.points,
            forall|rule: spec_fn(Point, Point) -> bool| #[trigger]
                follows(*blocked_edge, rule) ==> graph@ == cleared.restored(
                    undo.restore@.take(i as int),
                    rule,
                ),
        decreases undo.restore.len() - i,
    {
        assert(undo.restore@.take(i + 1).drop_last() =~= undo.restore@.take(i as int));
        let (a, b, scale) = undo.restore[i];
        assert(undo@.restore[i as int].0 < n);
        let p = graph.points[a];
        let q = graph.points[b];
        if !blocked_edge(p, q) {
            let w: i64 = edge_weight(p, q, scale);
            proof {
                if undo@.nonneg() {
                    assert(undo@.restore[i as int].2.unsigned());
                    lemma_weight_unsigned(pt(p), pt(q), scale);
                }
                lemma_joined(graph@, a, b, w);
            }
            graph.join(a, b, w);
        }
        i += 1;
    }
    assert(undo.restore@.take(undo.restore@.len() as int) =~= undo.restore@);
}

fn first_weight(links: &Vec<(usize, i64)>, b: usize) -> (w: Option<i64>)
    ensures
        w == weight_to(links@, b),
{
    let mut k: usize = 0;
    assert(links@.skip(0) =~= links@);
    while k < links.len()
        invariant
            k <= links.len(),
            weight_to(links@, b) == weight_to(links@.skip(k as int), b),
        decreases links.len() - k,
    {
        if links[k].0 == b {
            return Some(links[k].1);
        }
        assert(links@.skip(k as int).drop_first() =~= links@.skip(k + 1));
        k += 1;
    }
    None
}

pub fn linked_to(links: &Vec<(usize, i64)>, b: usize) -> (yes: bool)
    ensures
        yes == leads_to(links@, b),
{
    let mut k: usize = 0;
    while k < links.len()
        invariant
            k <= links.len(),
            forall|m: int| 0 <= m < k ==> (#[trigger] links@[m]).0 != b,
        decreases links.len() - k,
    {
        if links[k].0 == b {
            return true;
        }
        k += 1;
    }
    false
}

fn links_without(links: &Vec<(usize, i64)>, b: usize) -> (rest: Vec<(usize, i64)>)
    ensures
        rest@ == without(links@, b),
        forall|m: int|
            0 <= m < rest@.len() ==> exists|k: int|
                0 <= k < links@.len() && links@[k] == #[trigger] rest@[m],
{
    let mut rest: Vec<(usize, i64)> = Vec::new();
    let mut k: usize = 0;
    assert(links@.take(0) =~= Seq::<(usize, i64)>::empty());
    while k < links.len()
        invariant
            k <= links.len(),
            rest@ == without(links@.take(k as int), b),
            forall|m: int|
                0 <= m < rest@.len() ==> exists|j: int|
                    0 <= j < links@.len() && links@[j] == #[trigger] rest@[m],
        decreases links.len() - k,
    {
        assert(links@.take(k + 1).drop_last() =~= links@.take(k as int));
        if links[k].0 != b {
            rest.push(links[k]);
        }
        k += 1;
    }
    assert(links@.take(links@.len() as int) =~= links@);
    rest
}

/// No two points share a key.
proof fn lemma_keys(p: Point, q: Point)
    requires
        key_of(p) as u64 == key_of(q) as u64,
    ensures
        p == q,
{
}

/// One more point, indexed at its own place.
proof fn lemma_indexed(index: Map<u64, usize>, points: Seq<Point>, p: Point, i: usize)
    requires
        indexes(index, points),
        i == points.len(),
    ensures
        indexes(index.insert(key_of(p) as u64, i), points.push(p)),
{
    let more = points.push(p);
    assert(more.drop_last() =~= points);
    let bigger = index.insert(key_of(p) as u64, i);
    assert forall|q: Point|
        match #[trigger] slot(more, q) {
            Some(i) => bigger.contains_key(key_of(q) as u64) && bigger[key_of(q) as u64] == i,
            None => !bigger.contains_key(key_of(q) as u64),
        } by {
        if q != p {
            if key_of(p) as u64 == key_of(q) as u64 {
                lemma_keys(p, q);
            }
            assert(slot(more, q) == slot(points, q));
        }
    }
}

impl Web {
    /// No edge costs less than nothing.
    pub open spec fn nonneg(self) -> bool {
        forall|i: int, k: int|
            0 <= i < self.adj.len() && 0 <= k < self.adj[i].len() ==> (
            #[trigger] self.adj[i][k]).1 >= 0
    }
}

/// What is left of a list of neighbours was in it.
proof fn lemma_without(links: Links, b: usize, m: int)
    requires
        0 <= m < without(links, b).len(),
    ensures
        exists|k: int| 0 <= k < links.len() && #[trigger] links[k] == without(links, b)[m],
        without(links, b)[m].0 != b,
    decreases links.len(),
{
    let rest = without(links.drop_last(), b);
    if m < rest.len() {
        lemma_without(links.drop_last(), b, m);
        let k = choose|k: int|
            0 <= k < links.drop_last().len() && #[trigger] links.drop_last()[k] == rest[m];
        assert(links[k] == without(links, b)[m]);
    } else {
        assert(links[links.len() - 1] == without(links, b)[m]);
    }
}

pub proof fn lemma_with_vertex(web: Web, p: Point)
    requires
        web.wf(),
    ensures
        web.with_vertex(p).wf(),
        web.nonneg() ==> web.with_vertex(p).nonneg(),
        web.points.is_prefix_of(web.with_vertex(p).points),
{
}

pub proof fn lemma_linked(web: Web, a: usize, b: usize, w: i64)
    requires
        web.wf(),
        a < web.points.len(),
        b < web.points.len(),
    ensures
        web.linked(a, b, w).wf(),
        web.linked(a, b, w).points == web.points,
        web.nonneg() && w >= 0 ==> web.linked(a, b, w).nonneg(),
{
}

pub proof fn lemma_joined(web: Web, a: usize, b: usize, w: i64)
    requires
        web.wf(),
        a < web.points.len(),
        b < web.points.len(),
    ensures
        web.joined(a, b, w).wf(),
        web.joined(a, b, w).points == web.points,
        web.nonneg() && w >= 0 ==> web.joined(a, b, w).nonneg(),
{
    lemma_linked(web, a, b, w);
}

pub proof fn lemma_severed(web: Web, a: usize, b: usize)
    requires
        web.wf(),
        a < web.points.len(),
        b < web.points.len(),
    ensures
        web.severed(a, b).wf(),
        web.severed(a, b).points == web.points,
        web.nonneg() ==> web.severed(a, b).nonneg(),
{
    let one = web.adj.update(a as int, without(web.adj[a as int], b));
    let two = web.severed(a, b).adj;
    assert forall|i: int, k: int| 0 <= i < one.len() && 0 <= k < one[i].len() implies (
    #[trigger] one[i][k]).0 < web.points.len() && (web.nonneg() ==> one[i][k].1 >= 0) by {
        if i == a {
            lemma_without(web.adj[i], b, k);
        }
    }
    assert forall|i: int, k: int| 0 <= i < two.len() && 0 <= k < two[i].len() implies (
    #[trigger] two[i][k]).0 < web.points.len() && (web.nonneg() ==> two[i][k].1 >= 0) by {
        if i == b {
            lemma_without(one[i], a, k);
        }
    }
}

pub proof fn lemma_cut_all(web: Web, cut: Seq<(usize, usize)>)
    requires
        web.wf(),
        forall|i: int|
            0 <= i < cut.len() ==> (#[trigger] cut[i]).0 < web.points.len() && cut[i].1
                < web.points.len(),
    ensures
        web.cut_all(cut).wf(),
        web.cut_all(cut).points == web.points,
        web.nonneg() ==> web.cut_all(cut).nonneg(),
    decreases cut.len(),
{
    if cut.len() > 0 {
        assert forall|i: int| 0 <= i < cut.drop_last().len() implies (
        #[trigger] cut.drop_last()[i]).0 < web.points.len() && cut.drop_last()[i].1
            < web.points.len() by {
            assert(cut[i] == cut.drop_last()[i]);
        }
        lemma_cut_all(web, cut.drop_last());
        assert(cut[cut.len() - 1].0 < web.points.len());
        lemma_severed(web.cut_all(cut.drop_last()), cut.last().0, cut.last().1);
    }
}

pub proof fn lemma_restored(
    web: Web,
    list: Seq<(usize, usize, Single)>,
    blocked: spec_fn(Point, Point) -> bool,
)
    requires
        web.wf(),
        forall|i: int|
            0 <= i < list.len() ==> (#[trigger] list[i]).0 < web.points.len() && list[i].1
                < web.points.len(),
    ensures
        web.restored(list, blocked).wf(),
        web.restored(list, blocked).points == web.points,
        web.nonneg() && (forall|i: int|
            0 <= i < list.len() ==> (#[trigger] list[i]).2.unsigned()) ==> web.restored(
            list,
            blocked,
        ).nonneg(),
    decreases list.len(),
{
    if list.len() > 0 {
        let head = list.drop_last();
        assert forall|i: int| 0 <= i < head.len() implies (#[trigger] head[i]).0
            < web.points.len() && head[i].1 < web.points.len() && head[i] == list[i] by {
            assert(list[i] == head[i]);
        }
        lemma_restored(web, head, blocked);
        let (a, b, scale) = list.last();
        assert(list[list.len() - 1] == list.last());
        let (p, q) = (web.points[a as int], web.points[b as int]);
        let w = weight(pt(p), pt(q), scale);
        if scale.unsigned() {
            lemma_weight_unsigned(pt(p), pt(q), scale);
        }
        lemma_joined(web.restored(head, blocked), a, b, w as i64);
    }
}

/// Undoing a change keeps the vertices, and keeps weights from falling below nothing.
pub proof fn lemma_undone(web: Web, undo: Record, blocked: spec_fn(Point, Point) -> bool)
    requires
        web.wf(),
        undo.within(web.points.len() as int),
    ensures
        web.undone(undo, blocked).wf(),
        web.undone(undo, blocked).points == web.points,
        web.nonneg() && undo.nonneg() ==> web.undone(undo, blocked).nonneg(),
{
    lemma_cut_all(web, undo.cut);
    lemma_restored(web.cut_all(undo.cut), undo.restore, blocked);
}

/// A fresh web costs no less than nothing either.
pub proof fn lemma_with_edges(web: Web, edges: Seq<(Point, Point)>, scale: Single)
    requires
        web.wf(),
        web.points.len() <= usize::MAX,
        web.nonneg(),
        scale.unsigned(),
    ensures
        web.with_edges(edges, scale).wf(),
        web.with_edges(edges, scale).points == web.points,
        web.with_edges(edges, scale).nonneg(),
    decreases edges.len(),
{
    if edges.len() > 0 {
        lemma_with_edges(web, edges.drop_last(), scale);
        let (a, b) = edges.last();
        lemma_slot(web.points, a);
        lemma_slot(web.points, b);
        lemma_weight_unsigned(pt(a), pt(b), scale);
        if let (Some(i), Some(j)) = (slot(web.points, a), slot(web.points, b)) {
            lemma_linked(
                web.with_edges(edges.drop_last(), scale),
                i as usize,
                j as usize,
                weight(pt(a), pt(b), scale) as i64,
            );
        }
    }
}

/// A cut edge is gone, from either end.
pub proof fn law_cut_is_gone(web: Web, a: usize, b: usize)
    requires
        web.wf(),
        a < web.points.len(),
        b < web.points.len(),
    ensures
        !leads_to(web.severed(a, b).adj[a as int], b),
        !leads_to(web.severed(a, b).adj[b as int], a),
{
    let one = web.adj.update(a as int, without(web.adj[a as int], b));
    let two = web.severed(a, b).adj;
    assert forall|k: int| 0 <= k < two[b as int].len() implies (#[trigger] two[b as int][k]).0
        != a by {
        lemma_without(one[b as int], a, k);
    }
    assert forall|k: int| 0 <= k < two[a as int].len() implies (#[trigger] two[a as int][k]).0
        != b by {
        if a == b {
            lemma_without(one[b as int], a, k);
        } else {
            lemma_without(web.adj[a as int], b, k);
        }
    }
}

/// An edge between two vertices that had none is there after a join, at its weight and from
/// either end; an edge that was there stays as it was.
pub proof fn law_join_adds_once(web: Web, a: usize, b: usize, w: i64)
    requires
        web.wf(),
        a < web.points.len(),
        b < web.points.len(),
        a != b,
    ensures
        leads_to(web.adj[a as int], b) ==> web.joined(a, b, w) == web,
        !leads_to(web.adj[a as int], b) ==> {
            &&& weight_to(web.joined(a, b, w).adj[a as int], b) == Some(w)
            &&& leads_to(web.joined(a, b, w).adj[b as int], a)
        },
{
    if !leads_to(web.adj[a as int], b) {
        let after = web.joined(a, b, w).adj;
        lemma_weight_at_end(web.adj[a as int], b, w);
        assert(after[b as int][web.adj[b as int].len() as int].0 == a);
    }
}

proof fn lemma_weight_at_end(links: Links, b: usize, w: i64)
    requires
        !leads_to(links, b),
    ensures
        weight_to(links.push((b, w)), b) == Some(w),
    decreases links.len(),
{
    let more = links.push((b, w));
    if links.len() == 0 {
        assert(more[0] == (b, w));
    } else {
        assert(links[0].0 != b);
        assert(more.drop_first() =~= links.drop_first().push((b, w)));
        assert forall|k: int| 0 <= k < links.drop_first().len() implies (
        #[trigger] links.drop_first()[k]).0 != b by {
            assert(links[k + 1].0 != b);
        }
        lemma_weight_at_end(links.drop_first(), b, w);
    }
}

} // verus!
