//! Running every route to completion.

use crate::geom::{copy_points, half, on_segment, pt, Point};
use crate::lists::{
    copy_list, copy_names, increasing, insert_number, lemma_increasing_unique, lemma_push_contains,
    lemma_those, those,
};
use crate::rdl::access::{access_blocked, crowded, tracks_of};
use crate::rdl::commit::{commit_route, committed};
use crate::rdl::connect::{connected, is_routed, pairs_of, routed_pairs};
use crate::rdl::graft::{grafted, insert_access};
use crate::rdl::graph::{
    lemma_undone, lemma_with_edges, nothing_blocked, undo_access, web_of, Graph, Record, Undo, Web,
};
use crate::rdl::grid::Grid;
use crate::rdl::mesh::{follows, total};
use crate::rdl::obstacle::point_on_segment;
use crate::rdl::route::{
    before, displaced, displaced_by, failed_routes, failures, pair_order, target_pairs, views, Dest,
    DestView, Route, RouteView,
};
use crate::rdl::search::{found, law_path_ends, shortest_path};
use crate::single::Single;
use crate::sort::{arrange, arranged, compares, law_arranged_same, orders};
use vstd::prelude::*;

verus! {

/// A terminal: its net, and every place where a wire may land on it, each with the grid points it
/// can be entered from.
#[derive(Debug)]
pub struct Terminal {
    pub name: String,
    pub net: String,
    pub targets: Vec<(Point, Vec<Point>)>,
}

/// What a terminal is.
pub struct TerminalView {
    pub name: Seq<char>,
    pub net: Seq<char>,
    pub targets: Seq<(Point, Seq<Point>)>,
}

impl View for Terminal {
    type V = TerminalView;

    open spec fn view(&self) -> TerminalView {
        TerminalView {
            name: self.name@,
            net: self.net@,
            targets: Seq::new(
                self.targets@.len(),
                |i: int| (self.targets@[i].0, self.targets@[i].1@),
            ),
        }
    }
}

pub open spec fn terminal_views(access: Seq<Terminal>) -> Seq<TerminalView> {
    Seq::new(access.len(), |i: int| access[i]@)
}

/// The first terminal of a name.
pub open spec fn terminal_of(access: Seq<TerminalView>, name: Seq<char>) -> Option<TerminalView>
    decreases access.len(),
{
    if access.len() == 0 {
        None
    } else if access[0].name == name {
        Some(access[0])
    } else {
        terminal_of(access.drop_first(), name)
    }
}

fn find_terminal<'a>(access: &'a [Terminal], name: &String) -> (t: Option<&'a Terminal>)
    ensures
        t matches Some(x) ==> terminal_of(terminal_views(access@), name@) == Some(x@),
        t is None ==> terminal_of(terminal_views(access@), name@) is None,
{
    let ghost all = terminal_views(access@);
    let mut i: usize = 0;
    assert(all.skip(0) =~= all);
    while i < access.len()
        invariant
            i <= access.len(),
            all == terminal_views(access@),
            terminal_of(all, name@) == terminal_of(all.skip(i as int), name@),
        decreases access.len() - i,
    {
        assert(all.skip(i as int)[0] == access@[i as int]@);
        if access[i].name == *name {
            return Some(&access[i]);
        }
        assert(all.skip(i as int).drop_first() =~= all.skip(i + 1));
        i += 1;
    }
    None
}

/// A pad that another route has already reached.
pub open spec fn taken(routes: Seq<RouteView>, d: DestView) -> bool {
    !d.cover && exists|k: int|
        0 <= k < routes.len() && (#[trigger] routes[k]).laid() && (routes[k].reached() matches Some(
            x,
        ) && x.terminal == d.terminal)
}

/// The routes after route `i` has looked for its next destination, and that destination: those it
/// passes over are pads already reached and terminals it is already connected to.
pub open spec fn advanced(routes: Seq<RouteView>, i: int) -> (Seq<RouteView>, Option<DestView>)
    decreases routes[i].dests.len() - routes[i].next,
    when 0 <= i < routes.len() && routes[i].dests.len() <= usize::MAX
{
    let r = routes[i];
    if !r.more() {
        (routes, None)
    } else {
        let d = r.dests[r.next as int];
        let on = routes.update(i, RouteView { next: (r.next + 1) as usize, ..r });
        if taken(on, d) || connected(pairs_of(on), r.source, d.terminal) {
            advanced(on, i)
        } else {
            (on, Some(d))
        }
    }
}

fn is_taken(routes: &Vec<Route>, d: &Dest) -> (b: bool)
    ensures
        b == taken(views(routes@), d@),
{
    if d.cover {
        return false;
    }
    let ghost all = views(routes@);
    let mut k: usize = 0;
    while k < routes.len()
        invariant
            k <= routes.len(),
            !d.cover,
            all == views(routes@),
            forall|m: int|
                0 <= m < k ==> !((#[trigger] all[m]).laid() && (all[m].reached() matches Some(x)
                    && x.terminal == d@.terminal)),
        decreases routes.len() - k,
    {
        let r = &routes[k];
        assert(all[k as int] == r@);
        if r.routed && r.points.len() > 1 {
            if let Some(x) = r.tried() {
                if x.terminal == d.terminal {
                    return true;
                }
            }
        }
        k += 1;
    }
    false
}

/// Find the next destination that route `i` should try.
fn next_dest(routes: &mut Vec<Route>, i: usize) -> (d: Option<Dest>)
    requires
        i < old(routes).len(),
    ensures
        final(routes).len() == old(routes).len(),
        views(final(routes)@) == advanced(views(old(routes)@), i as int).0,
        d matches Some(x) ==> advanced(views(old(routes)@), i as int).1 == Some(x@),
        d is None ==> advanced(views(old(routes)@), i as int).1 is None,
{
    let ghost start = views(routes@);
    loop
        invariant
            i < routes.len(),
            routes.len() == old(routes).len(),
            start == views(old(routes)@),
            advanced(start, i as int) == advanced(views(routes@), i as int),
        decreases routes@[i as int].dests.len() - routes@[i as int].next,
    {
        let ghost now = views(routes@);
        assert(now[i as int] == routes@[i as int]@);
        assert(routes@[i as int].dests.len() == routes@[i as int].dests@.len());
        if !routes[i].has_next() {
            return None;
        }
        let cand = routes[i].dests[routes[i].next].clone();
        routes[i].next = routes[i].next + 1;
        let ghost r = now[i as int];
        assert(views(routes@) =~= now.update(
            i as int,
            RouteView { next: (r.next + 1) as usize, ..r },
        ));
        let skip = is_taken(routes, &cand) || {
            let pairs = routed_pairs(routes);
            is_routed(&pairs, routes[i].source.as_str(), cand.terminal.as_str())
        };
        if !skip {
            return Some(cand);
        }
    }
}

/// What a run works from: the grid, the terminals, the wires' width and spacing, how dear a turn is,
/// the edges to build the graph anew from before each attempt, if it is, whether slanted edges are
/// allowed, and which edges are blocked.
pub struct Plan {
    pub grid: Grid,
    pub access: Seq<TerminalView>,
    pub width: int,
    pub spacing: int,
    pub penalty: Single,
    pub rebuild: Option<Seq<(Point, Point)>>,
    pub allow45: bool,
    pub blocked: spec_fn(Point, Point) -> bool,
}

/// The same, to run on.
struct Job<'a> {
    grid: &'a Grid,
    access: &'a [Terminal],
    width: i32,
    spacing: i32,
    turn_penalty: Single,
    rebuild: Option<&'a [(Point, Point)]>,
    allow45: bool,
}

impl<'a> Job<'a> {
    spec fn plan(self, blocked: spec_fn(Point, Point) -> bool) -> Plan {
        Plan {
            grid: *self.grid,
            access: terminal_views(self.access@),
            width: self.width as int,
            spacing: self.spacing as int,
            penalty: self.turn_penalty,
            rebuild: match self.rebuild {
                Some(edges) => Some(edges@),
                None => None,
            },
            allow45: self.allow45,
            blocked,
        }
    }
}

/// The paths of the routed routes, in the order of the routes.
pub open spec fn tracks(routes: Seq<RouteView>) -> Seq<Seq<Point>>
    decreases routes.len(),
{
    if routes.len() == 0 {
        Seq::empty()
    } else {
        let rest = tracks(routes.drop_last());
        if routes.last().routed {
            rest.push(routes.last().points)
        } else {
            rest
        }
    }
}

/// One of the points lies on the segment.
pub open spec fn touched(laid: Seq<Seq<Point>>, p: Point, q: Point) -> bool {
    exists|k: int, i: int|
        0 <= k < laid.len() && 0 <= i < laid[k].len() && on_segment(
            pt(#[trigger] laid[k][i]),
            pt(p),
            pt(q),
        )
}

/// Each of the paths committed in turn.
pub open spec fn with_tracks(web: Web, laid: Seq<Seq<Point>>, plan: Plan) -> Web
    decreases laid.len(),
{
    if laid.len() == 0 {
        web
    } else {
        committed(
            with_tracks(web, laid.drop_last(), plan),
            laid.last(),
            plan.width,
            plan.spacing,
            plan.allow45,
        ).web
    }
}

/// What an attempt leaves: the graph, the path found, and the record of its commitment.
pub struct Try {
    pub web: Web,
    pub path: Seq<Point>,
    pub record: Record,
}

pub open spec fn no_record() -> Record {
    Record { restore: Seq::empty(), cut: Seq::empty() }
}

impl Plan {
    /// The graph an attempt starts from.
    pub open spec fn base(self, web: Web, routes: Seq<RouteView>) -> Web {
        match self.rebuild {
            Some(edges) => with_tracks(
                web_of(self.grid, edges, Single::unity()),
                tracks(routes),
                self,
            ),
            None => web,
        }
    }

    /// The grid points that no committed route has closed off.
    pub open spec fn open(self, snaps: Seq<Point>, routes: Seq<RouteView>) -> Seq<Point> {
        snaps.filter(
            |p: Point| !crowded(p, tracks(routes), half(self.width + self.spacing)),
        )
    }

    /// One attempt from a target of the source to a target of the destination. Both are grafted on
    /// and a path is searched for; where there is none, both grafts are undone. Where there is, the
    /// path is committed while the grafts are still on, and they are then undone except for edges
    /// that have come to conflict with an obstruction or a committed route.
    #[verifier::opaque]
    pub open spec fn attempt(
        self,
        web: Web,
        routes: Seq<RouteView>,
        s: (Point, Seq<Point>),
        d: (Point, Seq<Point>),
    ) -> Try {
        let start = self.base(web, routes);
        let a = grafted(
            start,
            self.grid,
            s.0,
            self.open(s.1, routes),
            self.allow45,
            self.blocked,
        );
        let b = grafted(
            a.web,
            self.grid,
            d.0,
            self.open(d.1, routes),
            self.allow45,
            self.blocked,
        );
        let path = found(b.web, s.0, d.0, self.penalty);
        if path.len() == 0 {
            let never = nothing_blocked();
            Try {
                web: b.web.undone(b.record, never).undone(a.record, never),
                path,
                record: no_record(),
            }
        } else {
            let c = committed(b.web, path, self.width, self.spacing, self.allow45);
            let laid = tracks(routes).push(path);
            let conflict = |p: Point, q: Point| (self.blocked)(p, q) || touched(laid, p, q);
            Try {
                web: c.web.undone(b.record, conflict).undone(a.record, conflict),
                path,
                record: c.record,
            }
        }
    }
}

/// The paths of the routed routes.
fn laid_tracks<'a>(routes: &'a Vec<Route>) -> (laid: Vec<&'a [Point]>)
    ensures
        tracks_of(laid@) == tracks(views(routes@)),
{
    let ghost all = views(routes@);
    let mut laid: Vec<&'a [Point]> = Vec::new();
    let mut i: usize = 0;
    assert(tracks_of(laid@) =~= tracks(all.take(0)));
    while i < routes.len()
        invariant
            i <= routes.len(),
            all == views(routes@),
            tracks_of(laid@) == tracks(all.take(i as int)),
        decreases routes.len() - i,
    {
        assert(all[i as int] == routes@[i as int]@);
        assert(all.take(i + 1).drop_last() =~= all.take(i as int));
        let ghost before = tracks_of(laid@);
        if routes[i].routed {
            laid.push(routes[i].points.as_slice());
            assert(tracks_of(laid@) =~= before.push(routes@[i as int].points@));
        }
        i += 1;
    }
    assert(all.take(all.len() as int) =~= all);
    laid
}

/// The grid points that no committed route has closed off.
fn open_snaps(
    snaps: &Vec<Point>,
    laid: &Vec<&[Point]>,
    width: i32,
    spacing: i32,
) -> (out: Vec<Point>)
    ensures
        out@ == snaps@.filter(
            |p: Point| !crowded(p, tracks_of(laid@), half(width + spacing)),
        ),
{
    let ghost keep = |p: Point| !crowded(p, tracks_of(laid@), half(width + spacing));
    let mut out: Vec<Point> = Vec::new();
    let mut i: usize = 0;
    while i < snaps.len()
        invariant
            i <= snaps.len(),
            keep == (|p: Point| !crowded(p, tracks_of(laid@), half(width + spacing))),
            out@ == snaps@.take(i as int).filter(keep),
        decreases snaps.len() - i,
    {
        proof {
            crate::lists::lemma_filter_step(snaps@, i as int, keep);
        }
        if !access_blocked(snaps[i], laid, width, spacing) {
            out.push(snaps[i]);
        }
        i += 1;
    }
    assert(snaps@.take(snaps@.len() as int) =~= snaps@);
    out
}

fn is_touched(laid: &Vec<&[Point]>, p: Point, q: Point) -> (b: bool)
    ensures
        b == touched(tracks_of(laid@), p, q),
{
    let ghost all = tracks_of(laid@);
    let mut k: usize = 0;
    while k < laid.len()
        invariant
            k <= laid.len(),
            all == tracks_of(laid@),
            forall|m: int, i: int|
                0 <= m < k && 0 <= i < all[m].len() ==> !on_segment(
                    pt(#[trigger] all[m][i]),
                    pt(p),
                    pt(q),
                ),
        decreases laid.len() - k,
    {
        let points = laid[k];
        let mut i: usize = 0;
        while i < points.len()
            invariant
                k < laid.len(),
                all == tracks_of(laid@),
                points@ == all[k as int],
                i <= points.len(),
                forall|j: int|
                    0 <= j < i ==> !on_segment(pt(#[trigger] all[k as int][j]), pt(p), pt(q)),
            decreases points.len() - i,
        {
            if point_on_segment(points[i], p, q) {
                assert(on_segment(pt(all[k as int][i as int]), pt(p), pt(q)));
                return true;
            }
            i += 1;
        }
        k += 1;
    }
    false
}

/// The graph an attempt starts from.
fn renew(job: &Job, graph: &mut Graph, laid: &Vec<&[Point]>)
    requires
        old(graph).wf(),
        old(graph)@.nonneg(),
    ensures
        final(graph).wf(),
        final(graph)@.nonneg(),
        forall|rule: spec_fn(Point, Point) -> bool, routes: Seq<RouteView>|
            tracks_of(laid@) == tracks(routes) ==> final(graph)@ == (
            #[trigger] job.plan(rule).base(old(graph)@, routes)),
{
    if let Some(edges) = job.rebuild {
        let mut fresh = Graph::build(job.grid, edges, Single::one());
        let ghost start = fresh@;
        proof {
            let points = crate::rdl::grid::crossings(job.grid.x@, job.grid.y@);
            let bare = Web { points, adj: Seq::new(points.len(), |i: int| Seq::empty()) };
            assert(fresh.points.len() == fresh.points@.len());
            lemma_edges_points(bare, edges@, Single::unity());
            lemma_with_edges(bare, edges@, Single::unity());
        }
        let ghost all = tracks_of(laid@);
        let ghost any = job.plan(|p: Point, q: Point| false);
        let mut k: usize = 0;
        while k < laid.len()
            invariant
                k <= laid.len(),
                all == tracks_of(laid@),
                any == job.plan(|p: Point, q: Point| false),
                fresh.wf(),
                fresh@.nonneg(),
                fresh@ == with_tracks(start, all.take(k as int), any),
            decreases laid.len() - k,
        {
            assert(all.take(k + 1).drop_last() =~= all.take(k as int));
            assert(all.take(k + 1).last() == laid@[k as int]@);
            commit_route(&mut fresh, laid[k], job.width, job.spacing, job.allow45);
            k += 1;
        }
        assert(all.take(all.len() as int) =~= all);
        *graph = fresh;
        assert forall|rule: spec_fn(Point, Point) -> bool, routes: Seq<RouteView>|
            tracks_of(laid@) == tracks(routes) implies graph@ == (
        #[trigger] job.plan(rule).base(old(graph)@, routes)) by {
            lemma_with_tracks(start, all, any, job.plan(rule));
        }
    }
}

/// Adding edges leaves the vertices as they are.
proof fn lemma_edges_points(web: Web, edges: Seq<(Point, Point)>, scale: Single)
    ensures
        web.with_edges(edges, scale).points == web.points,
    decreases edges.len(),
{
    if edges.len() > 0 {
        lemma_edges_points(web, edges.drop_last(), scale);
    }
}

/// What is blocked has no part in committing paths.
proof fn lemma_with_tracks(web: Web, laid: Seq<Seq<Point>>, a: Plan, b: Plan)
    requires
        a.width == b.width,
        a.spacing == b.spacing,
        a.allow45 == b.allow45,
    ensures
        with_tracks(web, laid, a) == with_tracks(web, laid, b),
    decreases laid.len(),
{
    if laid.len() > 0 {
        lemma_with_tracks(web, laid.drop_last(), a, b);
    }
}

/// What an attempt leaves, and what it returns.
spec fn tried(t: Try, web: Web, r: Option<(Vec<Point>, Undo)>) -> bool {
    &&& web == t.web
    &&& match r {
        Some((path, undo)) => path@ == t.path && path@.len() > 0 && undo@ == t.record,
        None => t.path.len() == 0,
    }
}

/// The path runs from a target of one terminal to a target of another.
pub open spec fn runs_between(
    src: TerminalView,
    dst: TerminalView,
    path: Seq<Point>,
    i: int,
    j: int,
) -> bool {
    &&& 0 <= i < src.targets.len() && 0 <= j < dst.targets.len()
    &&& path.len() > 0 && path[0] == src.targets[i].0 && path.last() == dst.targets[j].0
}

/// The same for a route's path, its own terminal, and that of the destination it tried last.
pub open spec fn lands_between(r: RouteView, access: Seq<TerminalView>, i: int, j: int) -> bool {
    match r.reached() {
        Some(d) => match (terminal_of(access, r.source), terminal_of(access, d.terminal)) {
            (Some(src), Some(dst)) => runs_between(src, dst, r.points, i, j),
            _ => false,
        },
        None => false,
    }
}

/// The route's path runs from its own terminal to that of the destination it tried last.
pub open spec fn lands(r: RouteView, access: Seq<TerminalView>) -> bool {
    exists|i: int, j: int| #[trigger] lands_between(r, access, i, j)
}

/// One attempt from a target of the source to a target of the destination.
fn try_pair<F: Fn(Point, Point) -> bool>(
    job: &Job,
    graph: &mut Graph,
    routes: &Vec<Route>,
    s: &(Point, Vec<Point>),
    d: &(Point, Vec<Point>),
    obstructed: &F,
) -> (r: Option<(Vec<Point>, Undo)>)
    requires
        old(graph).wf(),
        old(graph)@.nonneg(),
        total(*obstructed),
    ensures
        final(graph).wf(),
        final(graph)@.nonneg(),
        r matches Some(found) ==> found.1@.nonneg() && found.0@.len() > 0 && found.0@[0] == s.0
            && found.0@.last() == d.0,
        forall|rule: spec_fn(Point, Point) -> bool| #[trigger]
            follows(*obstructed, rule) ==> tried(
                job.plan(rule).attempt(
                    old(graph)@,
                    views(routes@),
                    (s.0, s.1@),
                    (d.0, d.1@),
                ),
                final(graph)@,
                r,
            ),
{
    let ghost web = graph@;
    let ghost all = views(routes@);
    let laid = laid_tracks(routes);
    renew(job, graph, &laid);
    let ghost base = graph@;
    let src_open = open_snaps(&s.1, &laid, job.width, job.spacing);
    let dst_open = open_snaps(&d.1, &laid, job.width, job.spacing);
    let a = insert_access(graph, job.grid, s.0, &src_open, job.allow45, obstructed);
    let ghost one = graph@;
    let b = insert_access(graph, job.grid, d.0, &dst_open, job.allow45, obstructed);
    let ghost two = graph@;
    let path = shortest_path(graph, s.0, d.0, job.turn_penalty);
    assert(a@.within(two.points.len() as int)) by {
        assert(one.points.len() <= two.points.len());
    }
    let ghost never = nothing_blocked();
    if path.len() == 0 {
        proof {
            lemma_undone(two, b@, never);
            lemma_undone(two.undone(b@, never), a@, never);
        }
        graph.undo(&b);
        graph.undo(&a);
        assert forall|rule: spec_fn(Point, Point) -> bool| #[trigger]
            follows(*obstructed, rule) implies tried(
            job.plan(rule).attempt(web, all, (s.0, s.1@), (d.0, d.1@)),
            graph@,
            None::<(Vec<Point>, Undo)>,
        ) by {
            reveal(Plan::attempt);
            let plan = job.plan(rule);
            assert(base == plan.base(web, all));
        }
        return None;
    }
    proof {
        assert(graph.points.len() == graph.points@.len());
        law_path_ends(two, s.0, d.0, path@);
    }
    let undo = commit_route(graph, &path, job.width, job.spacing, job.allow45);
    let ghost three = graph@;
    let mut settled = laid_tracks(routes);
    settled.push(path.as_slice());
    let ghost marked = tracks(all).push(path@);
    assert(tracks_of(settled@) =~= marked);
    let checked = |p0: Point, p1: Point| -> (r: bool)
        ensures
            exists|o: bool| #[trigger]
                obstructed.ensures((p0, p1), o) && r == (o || touched(
                    tracks_of(settled@),
                    p0,
                    p1,
                )),
        {
            let o = obstructed(p0, p1);
            o || is_touched(&settled, p0, p1)
        };
    assert(total(checked));
    undo_access(graph, &b, &checked);
    let ghost four = graph@;
    undo_access(graph, &a, &checked);
    assert forall|rule: spec_fn(Point, Point) -> bool| #[trigger] follows(*obstructed, rule) implies
        job.plan(rule).attempt(web, all, (s.0, s.1@), (d.0, d.1@)) == (Try {
        web: graph@,
        path: path@,
        record: undo@,
    }) by {
        reveal(Plan::attempt);
        let plan = job.plan(rule);
        assert(base == plan.base(web, all));
        let conflict = |p: Point, q: Point| (plan.blocked)(p, q) || touched(marked, p, q);
        assert(follows(checked, conflict)) by {
            assert forall|p: Point, q: Point, r: bool| #[trigger]
                checked.ensures((p, q), r) implies r == conflict(p, q) by {
                let o = choose|o: bool| #[trigger]
                    obstructed.ensures((p, q), o) && r == (o || touched(
                        tracks_of(settled@),
                        p,
                        q,
                    ));
                assert(o == rule(p, q));
            }
        }
    }
    Some((path, undo))
}

/// An attempt in the log: the two terminals, the two centres, and how long the path was.
pub type LogView = (Seq<char>, Seq<char>, Point, Point, usize);

/// What all attempts between two terminals leave.
pub struct Tries {
    pub web: Web,
    pub log: Seq<LogView>,
    pub path: Seq<Point>,
    pub record: Record,
}

impl Tries {
    /// The same after an earlier stretch of the log.
    pub open spec fn behind(self, log: Seq<LogView>) -> Tries {
        Tries { log: log + self.log, ..self }
    }
}

impl Plan {
    /// The listed pairings tried in turn until one gives a path.
    pub open spec fn tries(
        self,
        web: Web,
        routes: Seq<RouteView>,
        src: TerminalView,
        dst: TerminalView,
        pairs: Seq<(usize, usize)>,
    ) -> Tries
        decreases pairs.len(),
    {
        if pairs.len() == 0 {
            Tries { web, log: Seq::empty(), path: Seq::empty(), record: no_record() }
        } else {
            let (s, d) = (src.targets[pairs[0].0 as int], dst.targets[pairs[0].1 as int]);
            let t = self.attempt(web, routes, s, d);
            let entry: LogView = (src.name, dst.name, s.0, d.0, t.path.len() as usize);
            if t.path.len() > 0 {
                Tries { web: t.web, log: seq![entry], path: t.path, record: t.record }
            } else {
                self.tries(t.web, routes, src, dst, pairs.drop_first()).behind(seq![entry])
            }
        }
    }
}

/// The centres of a terminal's targets.
pub open spec fn centres(t: TerminalView) -> Seq<Point> {
    Seq::new(t.targets.len(), |i: int| t.targets[i].0)
}

/// A log as text.
pub open spec fn log_views(log: Seq<(String, String, Point, Point, usize)>) -> Seq<LogView> {
    Seq::new(log.len(), |i: int| (log[i].0@, log[i].1@, log[i].2, log[i].3, log[i].4))
}

fn centres_of(t: &Terminal) -> (out: Vec<Point>)
    ensures
        out@ == centres(t@),
{
    let mut out: Vec<Point> = Vec::new();
    let mut i: usize = 0;
    while i < t.targets.len()
        invariant
            i <= t.targets.len(),
            out.len() == i,
            forall|k: int| 0 <= k < i ==> #[trigger] out@[k] == t@.targets[k].0,
        decreases t.targets.len() - i,
    {
        out.push(t.targets[i].0);
        i += 1;
    }
    assert(out@ =~= centres(t@));
    out
}

/// What trying the pairings leaves, and what is returned.
spec fn all_tried(
    t: Tries,
    web: Web,
    log: Seq<LogView>,
    r: Option<(Vec<Point>, Undo)>,
) -> bool {
    &&& web == t.web
    &&& log == t.log
    &&& match r {
        Some((path, undo)) => path@ == t.path && path@.len() > 0 && undo@ == t.record,
        None => t.path.len() == 0,
    }
}

/// Try every pairing of two terminals' targets, in distance order, until one gives a path.
fn try_all<F: Fn(Point, Point) -> bool>(
    job: &Job,
    graph: &mut Graph,
    routes: &Vec<Route>,
    src: &Terminal,
    dst: &Terminal,
    log: &mut Vec<(String, String, Point, Point, usize)>,
    obstructed: &F,
) -> (r: Option<(Vec<Point>, Undo)>)
    requires
        old(graph).wf(),
        old(graph)@.nonneg(),
        total(*obstructed),
    ensures
        final(graph).wf(),
        final(graph)@.nonneg(),
        r matches Some(found) ==> found.1@.nonneg() && exists|i: int, j: int| #[trigger]
            runs_between(src@, dst@, found.0@, i, j),
        forall|rule: spec_fn(Point, Point) -> bool| #[trigger]
            follows(*obstructed, rule) ==> all_tried(
                job.plan(rule).tries(
                    old(graph)@,
                    views(routes@),
                    src@,
                    dst@,
                    pair_order(centres(src@), centres(dst@)),
                ).behind(log_views(old(log)@)),
                final(graph)@,
                log_views(final(log)@),
                r,
            ),
{
    let ghost web = graph@;
    let ghost all = views(routes@);
    let ghost start = log_views(log@);
    let src_centres = centres_of(src);
    let dst_centres = centres_of(dst);
    let pairs = target_pairs(&src_centres, &dst_centres);
    let mut k: usize = 0;
    assert(pairs@.skip(0) =~= pairs@);
    while k < pairs.len()
        invariant
            k <= pairs.len(),
            graph.wf(),
            graph@.nonneg(),
            total(*obstructed),
            all == views(routes@),
            web == old(graph)@,
            start == log_views(old(log)@),
            pairs@ == pair_order(centres(src@), centres(dst@)),
            forall|m: int| 0 <= m < pairs.len() ==> (#[trigger] pairs@[m]).0 < src.targets.len()
                && pairs@[m].1 < dst.targets.len(),
            forall|rule: spec_fn(Point, Point) -> bool| #[trigger]
                follows(*obstructed, rule) ==> job.plan(rule).tries(
                    web,
                    all,
                    src@,
                    dst@,
                    pairs@,
                ).behind(start) == job.plan(rule).tries(
                    graph@,
                    all,
                    src@,
                    dst@,
                    pairs@.skip(k as int),
                ).behind(log_views(log@)),
        decreases pairs.len() - k,
    {
        let (si, di) = pairs[k];
        let s = &src.targets[si];
        let d = &dst.targets[di];
        let ghost now = graph@;
        let ghost before = log_views(log@);
        assert(src@.targets[si as int] == (s.0, s.1@));
        assert(dst@.targets[di as int] == (d.0, d.1@));
        let found = try_pair(job, graph, routes, s, d, obstructed);
        let len: usize = match &found {
            Some(f) => f.0.len(),
            None => 0,
        };
        log.push((src.name.clone(), dst.name.clone(), s.0, d.0, len));
        let ghost entry: LogView = (src.name@, dst.name@, s.0, d.0, len);
        assert(log_views(log@) =~= before.push(entry));
        let ghost rest = pairs@.skip(k as int);
        assert(rest.drop_first() =~= pairs@.skip(k + 1));
        assert(rest[0] == (si, di));
        assert forall|rule: spec_fn(Point, Point) -> bool| #[trigger]
            follows(*obstructed, rule) implies ({
            let t = job.plan(rule).tries(now, all, src@, dst@, rest).behind(before);
            match found {
                Some((path, undo)) => all_tried(t, graph@, log_views(log@), found),
                None => t == job.plan(rule).tries(
                    graph@,
                    all,
                    src@,
                    dst@,
                    pairs@.skip(k + 1),
                ).behind(log_views(log@)),
            }
        }) by {
            let plan = job.plan(rule);
            let t = plan.attempt(now, all, (s.0, s.1@), (d.0, d.1@));
            assert(tried(t, graph@, found));
            if found is None {
                let more = plan.tries(graph@, all, src@, dst@, pairs@.skip(k + 1));
                assert(before + (seq![entry] + more.log) =~= before.push(entry) + more.log);
            } else {
                assert(before + seq![entry] =~= before.push(entry));
            }
        }
        if found.is_some() {
            assert(found matches Some(f) ==> runs_between(
                src@,
                dst@,
                f.0@,
                si as int,
                di as int,
            ));
            return found;
        }
        k += 1;
    }
    proof {
        assert forall|rule: spec_fn(Point, Point) -> bool| #[trigger]
            follows(*obstructed, rule) implies all_tried(
            job.plan(rule).tries(web, all, src@, dst@, pairs@).behind(start),
            graph@,
            log_views(log@),
            None::<(Vec<Point>, Undo)>,
        ) by {
            assert(log_views(log@) + Seq::<LogView>::empty() =~= log_views(log@));
        }
    }
    None
}

/// How far a run has come: the graph, the routes, the record of each committed route, the queue,
/// the log, and how many connections were attempted.
pub struct Run {
    pub web: Web,
    pub routes: Seq<RouteView>,
    pub committed: Seq<Option<Record>>,
    pub queue: Seq<usize>,
    pub log: Seq<LogView>,
    pub attempts: usize,
}

/// A count that stops at the largest number there is.
pub open spec fn bumped(n: usize) -> usize {
    if n < usize::MAX {
        (n + 1) as usize
    } else {
        n
    }
}

impl Plan {
    /// The first route of the queue taken off it and tried on its next destination.
    pub open spec fn served(self, run: Run) -> Run {
        let i = run.queue[0] as int;
        let queue = run.queue.drop_first();
        let r = run.routes[i];
        let off = run.routes.update(i, RouteView { pending: false, ..r });
        let (on, d) = advanced(off, i);
        match d {
            None => Run { routes: on, queue, ..run },
            Some(d) => match (
                terminal_of(self.access, r.source),
                terminal_of(self.access, d.terminal),
            ) {
                (Some(src), Some(dst)) => {
                    let t = self.tries(
                        run.web,
                        on,
                        src,
                        dst,
                        pair_order(centres(src), centres(dst)),
                    ).behind(run.log);
                    let tried = Run {
                        web: t.web,
                        routes: on,
                        committed: run.committed,
                        queue,
                        log: t.log,
                        attempts: bumped(run.attempts),
                    };
                    if t.path.len() > 0 {
                        Run {
                            routes: on.update(
                                i,
                                RouteView { routed: true, points: t.path, ..on[i] },
                            ),
                            committed: run.committed.update(i, Some(t.record)),
                            ..tried
                        }
                    } else if on[i].more() {
                        Run { queue: queue.push(i as usize), ..tried }
                    } else {
                        tried
                    }
                },
                _ => Run { routes: on, queue, ..run },
            },
        }
    }

    /// The run after `n` routes were taken off the queue.
    pub open spec fn served_times(self, run: Run, n: nat) -> Run
        decreases n,
    {
        if n == 0 {
            run
        } else {
            let last = self.served_times(run, (n - 1) as nat);
            if last.queue.len() == 0 {
                last
            } else {
                self.served(last)
            }
        }
    }

    /// The run once the queue is empty.
    pub open spec fn drained(self, run: Run) -> Run {
        self.served_times(
            run,
            choose|n: nat| (#[trigger] self.served_times(run, n)).queue.len() == 0,
        )
    }
}

proof fn lemma_served_stays(plan: Plan, run: Run, n: nat, m: nat)
    requires
        plan.served_times(run, n).queue.len() == 0,
        n <= m,
    ensures
        plan.served_times(run, m) == plan.served_times(run, n),
    decreases m,
{
    if n < m {
        lemma_served_stays(plan, run, n, (m - 1) as nat);
    }
}

/// However many steps it takes, a queue is drained one way.
proof fn lemma_drained(plan: Plan, run: Run, n: nat)
    requires
        plan.served_times(run, n).queue.len() == 0,
    ensures
        plan.drained(run) == plan.served_times(run, n),
{
    let m = choose|n: nat| (#[trigger] plan.served_times(run, n)).queue.len() == 0;
    if n <= m {
        lemma_served_stays(plan, run, n, m);
    } else {
        lemma_served_stays(plan, run, m, n);
    }
}

/// Looking for a destination moves one route past those it passes over, and changes nothing else.
proof fn lemma_advanced(routes: Seq<RouteView>, i: int)
    requires
        0 <= i < routes.len(),
        routes[i].dests.len() <= usize::MAX,
    ensures
        ({
            let (on, d) = advanced(routes, i);
            let r = routes[i];
            &&& on.len() == routes.len()
            &&& on == routes.update(i, RouteView { next: on[i].next, ..r })
            &&& r.more() ==> r.next < on[i].next <= r.dests.len()
            &&& !r.more() ==> on == routes && d is None
            &&& d is Some ==> on[i].reached() == d
        }),
    decreases routes[i].dests.len() - routes[i].next,
{
    let r = routes[i];
    if r.more() {
        let d = r.dests[r.next as int];
        let step = routes.update(i, RouteView { next: (r.next + 1) as usize, ..r });
        if taken(step, d) || connected(pairs_of(step), r.source, d.terminal) {
            lemma_advanced(step, i);
            let on = advanced(step, i).0;
            assert(on =~= routes.update(i, RouteView { next: on[i].next, ..r }));
        }
    } else {
        assert(routes =~= routes.update(i, RouteView { next: r.next, ..r }));
    }
}

/// How many destinations the routes have left.
spec fn left(routes: Seq<RouteView>) -> int
    decreases routes.len(),
{
    if routes.len() == 0 {
        0
    } else {
        left(routes.drop_last()) + left_of(routes.last())
    }
}

spec fn left_of(r: RouteView) -> int {
    if r.more() {
        r.dests.len() - r.next
    } else {
        0
    }
}

proof fn lemma_left_update(routes: Seq<RouteView>, i: int, r: RouteView)
    requires
        0 <= i < routes.len(),
    ensures
        left(routes.update(i, r)) == left(routes) - left_of(routes[i]) + left_of(r),
    decreases routes.len(),
{
    if i == routes.len() - 1 {
        assert(routes.update(i, r).drop_last() =~= routes.drop_last());
    } else {
        assert(routes.update(i, r).drop_last() =~= routes.drop_last().update(i, r));
        lemma_left_update(routes.drop_last(), i, r);
    }
}

proof fn lemma_left_nonneg(routes: Seq<RouteView>)
    ensures
        left(routes) >= 0,
    decreases routes.len(),
{
    if routes.len() > 0 {
        lemma_left_nonneg(routes.drop_last());
    }
}

/// The records, the queue, the log and the count of a run.
struct Bench {
    committed: Vec<Option<Undo>>,
    queue: Vec<usize>,
    log: Vec<(String, String, Point, Point, usize)>,
    attempts: usize,
}

spec fn records(committed: Seq<Option<Undo>>) -> Seq<Option<Record>> {
    Seq::new(
        committed.len(),
        |i: int|
            match committed[i] {
                Some(u) => Some(u@),
                None => None,
            },
    )
}

/// The run that these make up.
spec fn run_of(graph: Graph, routes: Seq<Route>, bench: Bench) -> Run {
    Run {
        web: graph@,
        routes: views(routes),
        committed: records(bench.committed@),
        queue: bench.queue@,
        log: log_views(bench.log@),
        attempts: bench.attempts,
    }
}

/// The queue and the records are about the routes, and no cost is below nothing.
spec fn fit(graph: Graph, routes: Seq<Route>, bench: Bench) -> bool {
    &&& graph.wf()
    &&& graph@.nonneg()
    &&& bench.committed@.len() == routes.len()
    &&& forall|i: int| 0 <= i < bench.queue@.len() ==> (#[trigger] bench.queue@[i]) < routes.len()
    &&& forall|i: int|
        0 <= i < bench.committed@.len() ==> ((#[trigger] bench.committed@[i]) matches Some(u)
            ==> u@.nonneg())
}

/// What serving a route keeps of the routes: all but how far they have come.
spec fn same_jobs(a: Seq<RouteView>, b: Seq<RouteView>) -> bool {
    a.len() == b.len() && forall|i: int|
        0 <= i < a.len() ==> (#[trigger] b[i]).source == a[i].source && b[i].dests == a[i].dests
            && b[i].priority == a[i].priority && b[i].centre == a[i].centre && b[i].id == a[i].id
            && b[i].instance == a[i].instance && b[i].locked == a[i].locked && b[i].stubs
            == a[i].stubs
}

/// Only routes that are not routed are queued, each once, and every route that was routed since the
/// start runs from its own terminal to that of the destination it tried last.
pub open spec fn fair(run: Run, access: Seq<TerminalView>, first: Seq<RouteView>) -> bool {
    &&& first.len() == run.routes.len()
    &&& run.queue.no_duplicates()
    &&& forall|k: int|
        0 <= k < run.queue.len() ==> (#[trigger] run.queue[k]) < run.routes.len()
            && !run.routes[run.queue[k] as int].routed
    &&& forall|i: int|
        0 <= i < run.routes.len() && (#[trigger] run.routes[i]).routed ==> first[i].routed || lands(
            run.routes[i],
            access,
        )
}

/// The queue of a fair run may be put in any order.
proof fn lemma_lined_up_fair(run: Run, access: Seq<TerminalView>, first: Seq<RouteView>)
    requires
        fair(run, access, first),
    ensures
        fair(lined_up(run), access, first),
{
    let rule = |a: usize, b: usize| before(run.routes[a as int], run.routes[b as int]);
    let (old_queue, new_queue) = (run.queue, lined_up(run).queue);
    law_arranged_same(old_queue, rule);
    old_queue.unique_seq_to_set();
    assert(old_queue.to_set() =~= new_queue.to_set()) by {
        assert forall|x: usize| old_queue.to_set().contains(x) <==> new_queue.to_set().contains(
            x,
        ) by {
            assert(new_queue.contains(x) <==> old_queue.contains(x));
        }
    }
    new_queue.lemma_no_dup_set_cardinality();
    assert forall|k: int| 0 <= k < new_queue.len() implies (#[trigger] new_queue[k])
        < run.routes.len() && !run.routes[new_queue[k] as int].routed by {
        assert(new_queue.contains(new_queue[k]));
        let j = choose|j: int| 0 <= j < old_queue.len() && old_queue[j] == new_queue[k];
        assert(old_queue[j] < run.routes.len());
    }
}

proof fn lemma_lands(
    r: RouteView,
    access: Seq<TerminalView>,
    d: DestView,
    src: TerminalView,
    dst: TerminalView,
    i: int,
    j: int,
)
    requires
        r.reached() == Some(d),
        terminal_of(access, r.source) == Some(src),
        terminal_of(access, d.terminal) == Some(dst),
        runs_between(src, dst, r.points, i, j),
    ensures
        lands(r, access),
{
    assert(lands_between(r, access, i, j));
}

/// A fair run stays fair as the first route of the queue is served.
proof fn lemma_served_fair(
    run: Run,
    next: Run,
    access: Seq<TerminalView>,
    first: Seq<RouteView>,
)
    requires
        fair(run, access, first),
        run.queue.len() > 0,
        next.routes.len() == run.routes.len(),
        forall|k: int|
            0 <= k < run.routes.len() && k != run.queue[0] ==> (#[trigger] next.routes[k])
                == run.routes[k],
        next.routes[run.queue[0] as int].routed ==> lands(
            next.routes[run.queue[0] as int],
            access,
        ) && next.queue == run.queue.drop_first(),
        next.queue == run.queue.drop_first() || next.queue == run.queue.drop_first().push(
            run.queue[0],
        ),
    ensures
        fair(next, access, first),
{
    let rest = run.queue.drop_first();
    assert forall|a: int, b: int| 0 <= a < b < next.queue.len() implies next.queue[a]
        != next.queue[b] by {
        assert(rest[a] == run.queue[a + 1]);
        if b < rest.len() {
            assert(rest[b] == run.queue[b + 1]);
        }
    }
    assert forall|k: int| 0 <= k < next.queue.len() implies (#[trigger] next.queue[k])
        < next.routes.len() && !next.routes[next.queue[k] as int].routed by {
        if k < rest.len() {
            assert(next.queue[k] == run.queue[k + 1]);
            assert(run.queue[k + 1] != run.queue[0]);
        }
    }
}

/// Take the first route off the queue and try it on its next destination.
fn serve<F: Fn(Point, Point) -> bool>(
    job: &Job,
    graph: &mut Graph,
    routes: &mut Vec<Route>,
    bench: &mut Bench,
    obstructed: &F,
)
    requires
        fit(*old(graph), old(routes)@, *old(bench)),
        old(bench).queue@.len() > 0,
        total(*obstructed),
    ensures
        fit(*final(graph), final(routes)@, *final(bench)),
        forall|first: Seq<RouteView>| #[trigger]
            fair(
                run_of(*old(graph), old(routes)@, *old(bench)),
                terminal_views(job.access@),
                first,
            ) ==> fair(
                run_of(*final(graph), final(routes)@, *final(bench)),
                terminal_views(job.access@),
                first,
            ),
        same_jobs(views(old(routes)@), views(final(routes)@)),
        left(views(final(routes)@)) < left(views(old(routes)@)) || (left(views(final(routes)@))
            == left(views(old(routes)@)) && final(bench).queue@.len() < old(bench).queue@.len()),
        forall|rule: spec_fn(Point, Point) -> bool| #[trigger]
            follows(*obstructed, rule) ==> run_of(*final(graph), final(routes)@, *final(bench))
                == job.plan(rule).served(run_of(*old(graph), old(routes)@, *old(bench))),
{
    let ghost start = run_of(*graph, routes@, *bench);
    let ghost was = views(routes@);
    let i: usize = bench.queue[0];
    bench.queue.remove(0);
    let ghost queue = start.queue.drop_first();
    assert(bench.queue@ =~= queue);
    assert forall|k: int| 0 <= k < bench.queue@.len() implies (#[trigger] bench.queue@[k])
        < routes.len() by {
        assert(bench.queue@[k] == start.queue[k + 1]);
    }
    let ghost r = was[i as int];
    assert(r == routes@[i as int]@);
    routes[i].pending = false;
    let ghost off = was.update(i as int, RouteView { pending: false, ..r });
    assert(views(routes@) =~= off);
    proof {
        assert(routes@[i as int].dests.len() == routes@[i as int].dests@.len());
        lemma_advanced(off, i as int);
        lemma_left_update(was, i as int, off[i as int]);
        let on = advanced(off, i as int).0;
        lemma_left_update(off, i as int, on[i as int]);
        assert(off.update(i as int, on[i as int]) =~= on);
    }
    let cand = next_dest(routes, i);
    let ghost on = views(routes@);
    assert(on == advanced(off, i as int).0);
    let d = match cand {
        None => {
            return;
        },
        Some(d) => d,
    };
    assert(routes@[i as int]@ == on[i as int]);
    let (src, dst) = match (
        find_terminal(job.access, &routes[i].source),
        find_terminal(job.access, &d.terminal),
    ) {
        (Some(src), Some(dst)) => (src, dst),
        _ => {
            return;
        },
    };
    if bench.attempts < usize::MAX {
        bench.attempts = bench.attempts + 1;
    }
    assert(terminal_of(terminal_views(job.access@), on[i as int].source) == Some(src@));
    let found = try_all(job, graph, routes, src, dst, &mut bench.log, obstructed);
    match found {
        Some((path, undo)) => {
            let ghost recorded = records(bench.committed@);
            let ghost record = undo@;
            let ghost points = path@;
            proof {
                let done = RouteView { routed: true, points, ..on[i as int] };
                let (a, b) = choose|a: int, b: int| #[trigger]
                    runs_between(src@, dst@, points, a, b);
                lemma_lands(done, terminal_views(job.access@), d@, src@, dst@, a, b);
            }
            bench.committed.set(i, Some(undo));
            assert(records(bench.committed@) =~= recorded.update(i as int, Some(record)));
            routes[i].routed = true;
            routes[i].points = path;
            assert(views(routes@) =~= on.update(
                i as int,
                RouteView { routed: true, points, ..on[i as int] },
            ));
            proof {
                lemma_left_update(
                    on,
                    i as int,
                    RouteView { routed: true, points, ..on[i as int] },
                );
            }
        },
        None => {
            if routes[i].has_next() {
                bench.queue.push(i);
            }
        },
    }
    assert forall|first: Seq<RouteView>| #[trigger]
        fair(start, terminal_views(job.access@), first) implies fair(
        run_of(*graph, routes@, *bench),
        terminal_views(job.access@),
        first,
    ) by {
        let now = run_of(*graph, routes@, *bench);
        assert(start.queue[0] == i);
        assert(!start.routes[i as int].routed);
        lemma_served_fair(start, now, terminal_views(job.access@), first);
    }
}

/// The run with its queue in the order routes are attempted.
pub open spec fn lined_up(run: Run) -> Run {
    Run {
        queue: arranged(
            run.queue,
            |a: usize, b: usize| before(run.routes[a as int], run.routes[b as int]),
        ),
        ..run
    }
}

/// The sources of the routed routes.
pub open spec fn done(routes: Seq<RouteView>) -> Set<Seq<char>> {
    Set::new(
        |s: Seq<char>|
            exists|k: int|
                0 <= k < routes.len() && (#[trigger] routes[k]).routed && routes[k].source == s,
    )
}

/// The routes that any of the listed failures would displace.
pub open spec fn ripped(routes: Seq<RouteView>, failed: Seq<usize>, extent: int) -> Seq<usize> {
    those(routes.len(), |t: usize| is_ripped(routes, failed, extent, t))
}

pub open spec fn is_ripped(
    routes: Seq<RouteView>,
    failed: Seq<usize>,
    extent: int,
    t: usize,
) -> bool {
    exists|f: int|
        0 <= f < failed.len() && displaced(
            routes[(#[trigger] failed[f]) as int],
            routes,
            extent,
        ).contains(t)
}

/// The run with route `t` taken out: what its commitment removed is put back, and it is queued to
/// start over. A record that speaks of vertices the graph does not have is passed over.
pub open spec fn uprooted(run: Run, t: usize) -> Run {
    let web = match run.committed[t as int] {
        Some(u) if u.within(run.web.points.len() as int) => run.web.undone(u, nothing_blocked()),
        _ => run.web,
    };
    let r = run.routes[t as int];
    Run {
        web,
        routes: run.routes.update(
            t as int,
            RouteView { routed: false, points: Seq::empty(), next: 0, pending: true, ..r },
        ),
        committed: run.committed.update(t as int, None),
        queue: run.queue.push(t),
        ..run
    }
}

pub open spec fn uprooted_all(run: Run, list: Seq<usize>) -> Run
    decreases list.len(),
{
    if list.len() == 0 {
        run
    } else {
        uprooted(uprooted_all(run, list.drop_last()), list.last())
    }
}

/// The run with the failed route `f` raised in priority and queued to start over.
pub open spec fn retried(run: Run, f: usize) -> Run {
    let r = run.routes[f as int];
    Run {
        routes: run.routes.update(
            f as int,
            RouteView { priority: (r.priority + 1) as i32, next: 0, pending: true, ..r },
        ),
        queue: run.queue.push(f),
        ..run
    }
}

pub open spec fn retried_all(run: Run, list: Seq<usize>) -> Run
    decreases list.len(),
{
    if list.len() == 0 {
        run
    } else {
        retried(retried_all(run, list.drop_last()), list.last())
    }
}

impl Plan {
    /// Rounds of draining the queue, until there were enough of them, or one routed nothing new, or
    /// nothing failed that is worth acting on. Between two rounds whatever failed raises its
    /// priority and displaces what crosses its probe, all of it chosen before any is displaced.
    pub open spec fn rounds(
        self,
        run: Run,
        iterations: int,
        last: Set<Seq<char>>,
        most: int,
    ) -> (Run, int)
        decreases most - iterations,
    {
        let end = self.drained(lined_up(run));
        let failed = failures(end.routes);
        if iterations + 1 > most || done(end.routes) == last || failed.len() == 0 {
            (end, iterations + 1)
        } else {
            let out = ripped(end.routes, failed, self.spacing + self.width);
            self.rounds(
                retried_all(uprooted_all(end, out), failed),
                iterations + 1,
                done(end.routes),
                most,
            )
        }
    }
}

/// The run before its first round: every route that is not yet routed is queued.
pub open spec fn fresh_run(web: Web, routes: Seq<RouteView>) -> Run {
    Run {
        web,
        routes,
        committed: Seq::new(routes.len(), |i: int| None),
        queue: those(routes.len(), |i: usize| !routes[i as int].routed),
        log: Seq::empty(),
        attempts: 0,
    }
}

/// A connection made: its net, its two terminals, and its path.
pub type PathView = (Seq<char>, Seq<char>, Seq<char>, Seq<Point>);

/// The connections made, in the order of the routes: a locked route made none.
pub open spec fn emitted(routes: Seq<RouteView>, access: Seq<TerminalView>) -> Seq<PathView>
    decreases routes.len(),
{
    if routes.len() == 0 {
        Seq::empty()
    } else {
        let rest = emitted(routes.drop_last(), access);
        let r = routes.last();
        match terminal_of(access, r.source) {
            Some(t) if r.routed && !r.locked && 1 <= r.next <= r.dests.len() => rest.push(
                (t.net, r.source, r.dests[r.next - 1].terminal, r.points),
            ),
            _ => rest,
        }
    }
}

/// The sources of the routes that are not routed, in order.
pub open spec fn unrouted(routes: Seq<RouteView>) -> Seq<Seq<char>>
    decreases routes.len(),
{
    if routes.len() == 0 {
        Seq::empty()
    } else {
        let rest = unrouted(routes.drop_last());
        if routes.last().routed {
            rest
        } else {
            rest.push(routes.last().source)
        }
    }
}

/// Put the queue in the order routes are attempted.
fn line_up(routes: &Vec<Route>, queue: &Vec<usize>) -> (out: Vec<usize>)
    requires
        forall|i: int| 0 <= i < queue@.len() ==> (#[trigger] queue@[i]) < routes.len(),
    ensures
        out@ == arranged(
            queue@,
            |a: usize, b: usize| before(views(routes@)[a as int], views(routes@)[b as int]),
        ),
        forall|i: int| 0 <= i < out@.len() ==> (#[trigger] out@[i]) < routes.len(),
{
    let ghost rule = |a: usize, b: usize|
        before(views(routes@)[a as int], views(routes@)[b as int]);
    let less = |a: usize, b: usize| -> (r: bool)
        requires
            a < routes.len(),
            b < routes.len(),
        ensures
            a < routes.len() && b < routes.len(),
            r == before(routes@[a as int]@, routes@[b as int]@),
        { routes[a].goes_before(&routes[b]) };
    proof {
        assert forall|x: usize, y: usize| queue@.contains(x) && queue@.contains(y) implies
            #[trigger] less.requires((x, y)) by {
            let i = choose|i: int| 0 <= i < queue@.len() && queue@[i] == x;
            let j = choose|j: int| 0 <= j < queue@.len() && queue@[j] == y;
            assert(queue@[i] < routes.len() && queue@[j] < routes.len());
        }
        assert forall|a: usize, b: usize, r: bool| #[trigger] less.ensures((a, b), r) implies r
            == rule(a, b) by {
            assert(views(routes@)[a as int] == routes@[a as int]@);
            assert(views(routes@)[b as int] == routes@[b as int]@);
        }
        assert(compares(less, queue@));
        assert(orders(less, rule));
    }
    let out = arrange(queue, &less);
    assert forall|i: int| 0 <= i < out@.len() implies (#[trigger] out@[i]) < routes.len() by {
        assert(out@.contains(out@[i]));
        let j = choose|j: int| 0 <= j < queue@.len() && queue@[j] == out@[i];
        assert(queue@[j] < routes.len());
    }
    out
}

proof fn lemma_same_jobs(a: Seq<RouteView>, b: Seq<RouteView>, c: Seq<RouteView>)
    requires
        same_jobs(a, b),
        same_jobs(b, c),
    ensures
        same_jobs(a, c),
{
    assert forall|i: int| 0 <= i < a.len() implies (#[trigger] c[i]).source == a[i].source
        && c[i].dests == a[i].dests && c[i].priority == a[i].priority && c[i].centre == a[i].centre
        && c[i].id == a[i].id && c[i].instance == a[i].instance && c[i].locked == a[i].locked
        && c[i].stubs == a[i].stubs by {
        assert(b[i].source == a[i].source);
    }
}

/// Serve the queue until it is empty.
fn drain<F: Fn(Point, Point) -> bool>(
    job: &Job,
    graph: &mut Graph,
    routes: &mut Vec<Route>,
    bench: &mut Bench,
    obstructed: &F,
)
    requires
        fit(*old(graph), old(routes)@, *old(bench)),
        total(*obstructed),
    ensures
        fit(*final(graph), final(routes)@, *final(bench)),
        same_jobs(views(old(routes)@), views(final(routes)@)),
        final(bench).queue@.len() == 0,
        forall|first: Seq<RouteView>| #[trigger]
            fair(
                run_of(*old(graph), old(routes)@, *old(bench)),
                terminal_views(job.access@),
                first,
            ) ==> fair(
                run_of(*final(graph), final(routes)@, *final(bench)),
                terminal_views(job.access@),
                first,
            ),
        forall|rule: spec_fn(Point, Point) -> bool| #[trigger]
            follows(*obstructed, rule) ==> run_of(*final(graph), final(routes)@, *final(bench))
                == job.plan(rule).drained(
                lined_up(run_of(*old(graph), old(routes)@, *old(bench))),
            ),
{
    let ghost first = run_of(*graph, routes@, *bench);
    let queue = line_up(routes, &bench.queue);
    bench.queue = queue;
    let ghost start = run_of(*graph, routes@, *bench);
    assert(start == lined_up(first));
    assert forall|old_routes: Seq<RouteView>| #[trigger]
        fair(first, terminal_views(job.access@), old_routes) implies fair(
        start,
        terminal_views(job.access@),
        old_routes,
    ) by {
        lemma_lined_up_fair(first, terminal_views(job.access@), old_routes);
    }
    let ghost mut n: nat = 0;
    while bench.queue.len() > 0
        invariant
            fit(*graph, routes@, *bench),
            total(*obstructed),
            same_jobs(start.routes, views(routes@)),
            forall|old_routes: Seq<RouteView>| #[trigger]
                fair(start, terminal_views(job.access@), old_routes) ==> fair(
                    run_of(*graph, routes@, *bench),
                    terminal_views(job.access@),
                    old_routes,
                ),
            forall|rule: spec_fn(Point, Point) -> bool| #[trigger]
                follows(*obstructed, rule) ==> run_of(*graph, routes@, *bench)
                    == job.plan(rule).served_times(start, n),
        decreases left(views(routes@)), bench.queue@.len(),
    {
        let ghost before = views(routes@);
        serve(job, graph, routes, bench, obstructed);
        proof {
            lemma_same_jobs(start.routes, before, views(routes@));
            lemma_left_nonneg(views(routes@));
            n = n + 1;
        }
    }
    assert forall|rule: spec_fn(Point, Point) -> bool| #[trigger] follows(*obstructed, rule) implies
        run_of(*graph, routes@, *bench) == job.plan(rule).drained(start) by {
        lemma_drained(job.plan(rule), start, n);
    }
}

/// Every vertex that a record speaks of is among the first `n`.
fn is_within(undo: &Undo, n: usize) -> (b: bool)
    ensures
        b == undo@.within(n as int),
{
    let mut i: usize = 0;
    while i < undo.restore.len()
        invariant
            i <= undo.restore.len(),
            forall|k: int|
                0 <= k < i ==> (#[trigger] undo@.restore[k]).0 < n && undo@.restore[k].1 < n,
        decreases undo.restore.len() - i,
    {
        assert(undo@.restore[i as int] == undo.restore@[i as int]);
        if undo.restore[i].0 >= n || undo.restore[i].1 >= n {
            return false;
        }
        i += 1;
    }
    i = 0;
    while i < undo.cut.len()
        invariant
            i <= undo.cut.len(),
            forall|k: int|
                0 <= k < undo@.restore.len() ==> (#[trigger] undo@.restore[k]).0 < n
                    && undo@.restore[k].1 < n,
            forall|k: int| 0 <= k < i ==> (#[trigger] undo@.cut[k]).0 < n && undo@.cut[k].1 < n,
        decreases undo.cut.len() - i,
    {
        assert(undo@.cut[i as int] == undo.cut@[i as int]);
        if undo.cut[i].0 >= n || undo.cut[i].1 >= n {
            return false;
        }
        i += 1;
    }
    true
}

/// Taking out a route that is routed leaves a fair run fair.
proof fn lemma_uprooted_fair(run: Run, access: Seq<TerminalView>, first: Seq<RouteView>, t: usize)
    requires
        fair(run, access, first),
        t < run.routes.len(),
        run.routes[t as int].routed,
    ensures
        fair(uprooted(run, t), access, first),
{
    let next = uprooted(run, t);
    assert forall|a: int, b: int| 0 <= a < b < next.queue.len() implies next.queue[a]
        != next.queue[b] by {
        assert(!run.routes[run.queue[a] as int].routed);
    }
    assert forall|k: int| 0 <= k < next.queue.len() implies (#[trigger] next.queue[k])
        < next.routes.len() && !next.routes[next.queue[k] as int].routed by {
        if k < run.queue.len() {
            assert(next.queue[k] == run.queue[k]);
        }
    }
}

/// Queueing a route that is neither routed nor queued leaves a fair run fair.
proof fn lemma_retried_fair(run: Run, access: Seq<TerminalView>, first: Seq<RouteView>, f: usize)
    requires
        fair(run, access, first),
        f < run.routes.len(),
        !run.routes[f as int].routed,
        !run.queue.contains(f),
    ensures
        fair(retried(run, f), access, first),
{
    let next = retried(run, f);
    assert forall|a: int, b: int| 0 <= a < b < next.queue.len() implies next.queue[a]
        != next.queue[b] by {
        assert(run.queue.contains(run.queue[a]));
    }
    assert forall|k: int| 0 <= k < next.queue.len() implies (#[trigger] next.queue[k])
        < next.routes.len() && !next.routes[next.queue[k] as int].routed by {
        if k < run.queue.len() {
            assert(next.queue[k] == run.queue[k]);
        }
    }
}

/// Taking out routes that are routed, one after the other.
proof fn lemma_uprooted_all_fair(
    run: Run,
    access: Seq<TerminalView>,
    first: Seq<RouteView>,
    list: Seq<usize>,
)
    requires
        fair(run, access, first),
        list.no_duplicates(),
        forall|i: int|
            0 <= i < list.len() ==> (#[trigger] list[i]) < run.routes.len()
                && run.routes[list[i] as int].routed,
    ensures
        fair(uprooted_all(run, list), access, first),
        uprooted_all(run, list).routes.len() == run.routes.len(),
        uprooted_all(run, list).queue == run.queue + list,
        forall|k: int|
            0 <= k < run.routes.len() && !list.contains(k as usize) ==> (#[trigger] uprooted_all(
                run,
                list,
            ).routes[k]) == run.routes[k],
    decreases list.len(),
{
    if list.len() > 0 {
        let head = list.drop_last();
        let t = list.last();
        assert forall|i: int| 0 <= i < head.len() implies (#[trigger] head[i]) < run.routes.len()
            && run.routes[head[i] as int].routed by {
            assert(list[i] == head[i]);
        }
        assert(head.no_duplicates()) by {
            assert forall|a: int, b: int| 0 <= a < b < head.len() implies head[a] != head[b] by {
                assert(list[a] != list[b]);
            }
        }
        lemma_uprooted_all_fair(run, access, first, head);
        let most = uprooted_all(run, head);
        assert(list[list.len() - 1] == t);
        assert(!head.contains(t)) by {
            if head.contains(t) {
                let a = choose|a: int| 0 <= a < head.len() && head[a] == t;
                assert(list[a] == list[list.len() - 1]);
            }
        }
        assert(most.routes[t as int] == run.routes[t as int]);
        lemma_uprooted_fair(most, access, first, t);
        assert((run.queue + head).push(t) =~= run.queue + list);
        assert forall|k: int| 0 <= k < run.routes.len() && !list.contains(k as usize) implies (
        #[trigger] uprooted_all(run, list).routes[k]) == run.routes[k] by {
            assert(list[list.len() - 1] == t);
            if head.contains(k as usize) {
                let a = choose|a: int| 0 <= a < head.len() && head[a] == k as usize;
                assert(list[a] == k as usize);
            }
            assert(most.routes[k] == run.routes[k]);
        }
    } else {
        assert(run.queue + list =~= run.queue);
    }
}

/// Queueing routes that are neither routed nor queued, one after the other.
proof fn lemma_retried_all_fair(
    run: Run,
    access: Seq<TerminalView>,
    first: Seq<RouteView>,
    list: Seq<usize>,
)
    requires
        fair(run, access, first),
        list.no_duplicates(),
        forall|i: int|
            0 <= i < list.len() ==> (#[trigger] list[i]) < run.routes.len()
                && !run.routes[list[i] as int].routed && !run.queue.contains(list[i]),
    ensures
        fair(retried_all(run, list), access, first),
        retried_all(run, list).routes.len() == run.routes.len(),
        retried_all(run, list).queue == run.queue + list,
        forall|k: int|
            0 <= k < run.routes.len() ==> (#[trigger] retried_all(run, list).routes[k]).routed
                == run.routes[k].routed,
    decreases list.len(),
{
    if list.len() > 0 {
        let head = list.drop_last();
        let f = list.last();
        assert forall|i: int| 0 <= i < head.len() implies (#[trigger] head[i]) < run.routes.len()
            && !run.routes[head[i] as int].routed && !run.queue.contains(head[i]) by {
            assert(list[i] == head[i]);
        }
        assert(head.no_duplicates()) by {
            assert forall|a: int, b: int| 0 <= a < b < head.len() implies head[a] != head[b] by {
                assert(list[a] != list[b]);
            }
        }
        lemma_retried_all_fair(run, access, first, head);
        let most = retried_all(run, head);
        assert(list[list.len() - 1] == f);
        assert(!most.queue.contains(f)) by {
            if most.queue.contains(f) {
                let a = choose|a: int| 0 <= a < most.queue.len() && most.queue[a] == f;
                if a < run.queue.len() {
                    assert(run.queue[a] == f);
                } else {
                    assert(head[a - run.queue.len()] == f);
                    assert(list[a - run.queue.len()] == list[list.len() - 1]);
                }
            }
        }
        assert(most.routes[f as int].routed == run.routes[f as int].routed);
        lemma_retried_fair(most, access, first, f);
        assert((run.queue + head).push(f) =~= run.queue + list);
        assert forall|k: int| 0 <= k < run.routes.len() implies (#[trigger] retried_all(
            run,
            list,
        ).routes[k]).routed == run.routes[k].routed by {
            assert(most.routes[k].routed == run.routes[k].routed);
        }
    } else {
        assert(run.queue + list =~= run.queue);
    }
}

/// What is displaced is routed.
proof fn lemma_ripped_routed(routes: Seq<RouteView>, failed: Seq<usize>, extent: int)
    requires
        routes.len() <= usize::MAX,
    ensures
        ripped(routes, failed, extent).no_duplicates(),
        forall|i: int|
            0 <= i < ripped(routes, failed, extent).len() ==> (#[trigger] ripped(
                routes,
                failed,
                extent,
            )[i]) < routes.len() && routes[ripped(routes, failed, extent)[i] as int].routed,
{
    let cond = |t: usize| is_ripped(routes, failed, extent, t);
    let out = ripped(routes, failed, extent);
    lemma_those(routes.len(), cond);
    assert forall|i: int| 0 <= i < out.len() implies (#[trigger] out[i]) < routes.len()
        && routes[out[i] as int].routed by {
        let t = out[i];
        assert(cond(t));
        let m = choose|m: int|
            0 <= m < failed.len() && displaced(
                routes[(#[trigger] failed[m]) as int],
                routes,
                extent,
            ).contains(t);
        let f = routes[failed[m] as int];
        if f.dests.len() > 0 {
            let hit = |i: usize|
                crate::rdl::route::yields(routes[i as int], f.priority)
                    && crate::rdl::route::passes(
                    f.centre,
                    f.dests[crate::rdl::route::probed(f)].centre,
                    routes[i as int].points,
                    crate::rdl::route::margin(f, extent),
                );
            lemma_those(routes.len(), hit);
        }
    }
}

/// Between two rounds a fair run stays fair.
proof fn lemma_rearranged_fair(
    run: Run,
    access: Seq<TerminalView>,
    first: Seq<RouteView>,
    extent: int,
)
    requires
        fair(run, access, first),
        run.queue.len() == 0,
        run.routes.len() <= usize::MAX,
    ensures
        ({
            let failed = failures(run.routes);
            let out = ripped(run.routes, failed, extent);
            fair(retried_all(uprooted_all(run, out), failed), access, first)
        }),
{
    let failed = failures(run.routes);
    let out = ripped(run.routes, failed, extent);
    let cond = |i: usize|
        run.routes[i as int].failed() && !crate::rdl::route::served(
            run.routes,
            run.routes[i as int].source,
        );
    lemma_those(run.routes.len(), cond);
    lemma_ripped_routed(run.routes, failed, extent);
    lemma_uprooted_all_fair(run, access, first, out);
    let mid = uprooted_all(run, out);
    assert(run.queue + out =~= out);
    assert forall|i: int| 0 <= i < failed.len() implies (#[trigger] failed[i]) < mid.routes.len()
        && !mid.routes[failed[i] as int].routed && !mid.queue.contains(failed[i]) by {
        let f = failed[i];
        assert(cond(f));
        assert(!run.routes[f as int].routed);
        assert(!out.contains(f)) by {
            if out.contains(f) {
                let a = choose|a: int| 0 <= a < out.len() && out[a] == f;
                assert(run.routes[out[a] as int].routed);
            }
        }
        assert(mid.routes[f as int] == run.routes[f as int]);
    }
    lemma_retried_all_fair(mid, access, first, failed);
}

/// Take route `t` out and queue it to start over.
fn uproot(graph: &mut Graph, routes: &mut Vec<Route>, bench: &mut Bench, t: usize)
    requires
        fit(*old(graph), old(routes)@, *old(bench)),
        t < old(routes).len(),
    ensures
        fit(*final(graph), final(routes)@, *final(bench)),
        final(routes).len() == old(routes).len(),
        run_of(*final(graph), final(routes)@, *final(bench)) == uprooted(
            run_of(*old(graph), old(routes)@, *old(bench)),
            t,
        ),
{
    let ghost run = run_of(*graph, routes@, *bench);
    let ghost was = views(routes@);
    let ghost recorded = records(bench.committed@);
    let ghost never = nothing_blocked();
    assert(recorded[t as int] == match bench.committed@[t as int] {
        Some(u) => Some(u@),
        None => None,
    });
    if let Some(u) = &bench.committed[t] {
        let n: usize = graph.points.len();
        if is_within(u, n) {
            proof {
                lemma_undone(graph@, u@, never);
            }
            graph.undo(u);
        }
    }
    bench.committed.set(t, None);
    assert(records(bench.committed@) =~= recorded.update(t as int, None));
    assert(routes@[t as int]@ == was[t as int]);
    routes[t].routed = false;
    routes[t].points = Vec::new();
    routes[t].next = 0;
    routes[t].pending = true;
    let ghost r = was[t as int];
    assert(views(routes@) =~= was.update(
        t as int,
        RouteView { routed: false, points: Seq::empty(), next: 0, pending: true, ..r },
    )) by {
        assert(routes@[t as int]@.points =~= Seq::<Point>::empty());
    }
    bench.queue.push(t);
}

/// Raise the failed route `f` in priority and queue it to start over.
fn retry(routes: &mut Vec<Route>, bench: &mut Bench, f: usize)
    requires
        f < old(routes).len(),
        old(routes)@[f as int].priority < i32::MAX,
    ensures
        final(routes).len() == old(routes).len(),
        forall|graph: Graph| fit(graph, old(routes)@, *old(bench)) ==> #[trigger] fit(
            graph,
            final(routes)@,
            *final(bench),
        ),
        forall|graph: Graph| #[trigger]
            run_of(graph, final(routes)@, *final(bench)) == retried(
                run_of(graph, old(routes)@, *old(bench)),
                f,
            ),
{
    let ghost was = views(routes@);
    assert(routes@[f as int]@ == was[f as int]);
    routes[f].priority = routes[f].priority + 1;
    routes[f].next = 0;
    routes[f].pending = true;
    let ghost r = was[f as int];
    assert(views(routes@) =~= was.update(
        f as int,
        RouteView { priority: (r.priority + 1) as i32, next: 0, pending: true, ..r },
    ));
    bench.queue.push(f);
}

/// The routes that any of the listed failures would displace.
fn choose_ripped(routes: &Vec<Route>, failed: &Vec<usize>, extent: i64) -> (out: Vec<usize>)
    requires
        forall|i: int| 0 <= i < failed@.len() ==> (#[trigger] failed@[i]) < routes.len(),
        -0x2_0000_0000 <= extent <= 0x2_0000_0000,
    ensures
        out@ == ripped(views(routes@), failed@, extent as int),
        forall|i: int| 0 <= i < out@.len() ==> (#[trigger] out@[i]) < routes.len(),
{
    let ghost all = views(routes@);
    let mut out: Vec<usize> = Vec::new();
    let mut i: usize = 0;
    while i < failed.len()
        invariant
            i <= failed.len(),
            all == views(routes@),
            -0x2_0000_0000 <= extent <= 0x2_0000_0000,
            forall|i: int| 0 <= i < failed@.len() ==> (#[trigger] failed@[i]) < routes.len(),
            increasing(out@),
            forall|t: usize| #[trigger]
                out@.contains(t) <==> is_ripped(all, failed@.take(i as int), extent as int, t),
        decreases failed.len() - i,
    {
        let f: usize = failed[i];
        assert(failed@[i as int] < routes.len());
        let hit = displaced_by(&routes[f], routes, extent);
        assert(all[f as int] == routes@[f as int]@);
        let ghost before = out@;
        let mut k: usize = 0;
        while k < hit.len()
            invariant
                k <= hit.len(),
                increasing(out@),
                forall|t: usize| #[trigger]
                    out@.contains(t) <==> before.contains(t) || hit@.take(k as int).contains(t),
            decreases hit.len() - k,
        {
            let ghost sofar = out@;
            insert_number(&mut out, hit[k]);
            assert(hit@.take(k + 1) =~= hit@.take(k as int).push(hit@[k as int]));
            assert forall|t: usize| #[trigger] out@.contains(t) <==> before.contains(t)
                || hit@.take(k + 1).contains(t) by {
                lemma_push_contains(hit@.take(k as int), hit@[k as int], t);
                assert(sofar.contains(t) <==> before.contains(t) || hit@.take(k as int).contains(
                    t,
                ));
            }
            k += 1;
        }
        assert(hit@.take(hit@.len() as int) =~= hit@);
        assert forall|t: usize| #[trigger] out@.contains(t) <==> is_ripped(
            all,
            failed@.take(i + 1),
            extent as int,
            t,
        ) by {
            let (old_part, part) = (failed@.take(i as int), failed@.take(i + 1));
            assert(before.contains(t) <==> is_ripped(all, old_part, extent as int, t));
            if is_ripped(all, old_part, extent as int, t) {
                let m = choose|m: int|
                    0 <= m < old_part.len() && displaced(
                        all[(#[trigger] old_part[m]) as int],
                        all,
                        extent as int,
                    ).contains(t);
                assert(part[m] == old_part[m]);
            }
            if hit@.contains(t) {
                assert(part[i as int] == f);
            }
            if is_ripped(all, part, extent as int, t) {
                let m = choose|m: int|
                    0 <= m < part.len() && displaced(
                        all[(#[trigger] part[m]) as int],
                        all,
                        extent as int,
                    ).contains(t);
                if m < i {
                    assert(old_part[m] == part[m]);
                } else {
                    assert(part[m] == f);
                }
            }
        }
        i += 1;
    }
    assert(failed@.take(failed@.len() as int) =~= failed@);
    proof {
        assert(routes.len() == routes@.len());
        let cond = |t: usize| is_ripped(all, failed@, extent as int, t);
        lemma_those(all.len(), cond);
        let want = those(all.len(), cond);
        assert forall|t: usize| #[trigger] out@.contains(t) <==> want.contains(t) by {
            if out@.contains(t) {
                let m = choose|m: int|
                    0 <= m < failed@.len() && displaced(
                        all[(#[trigger] failed@[m]) as int],
                        all,
                        extent as int,
                    ).contains(t);
                lemma_displaced(all[failed@[m] as int], all, extent as int, t);
            }
        }
        lemma_increasing_unique(out@, want);
    }
    out
}

/// What is displaced is a route.
proof fn lemma_displaced(failed: RouteView, routes: Seq<RouteView>, extent: int, t: usize)
    requires
        displaced(failed, routes, extent).contains(t),
        routes.len() <= usize::MAX,
    ensures
        t < routes.len(),
{
    if failed.dests.len() > 0 {
        let cond = |i: usize|
            crate::rdl::route::yields(routes[i as int], failed.priority)
                && crate::rdl::route::passes(
                failed.centre,
                failed.dests[crate::rdl::route::probed(failed)].centre,
                routes[i as int].points,
                crate::rdl::route::margin(failed, extent),
            );
        lemma_those(routes.len(), cond);
    }
}

/// The sources of the routed routes.
fn done_sources(routes: &Vec<Route>) -> (out: Vec<String>)
    ensures
        names(out@) == done(views(routes@)),
{
    let ghost all = views(routes@);
    let mut out: Vec<String> = Vec::new();
    let mut i: usize = 0;
    while i < routes.len()
        invariant
            i <= routes.len(),
            all == views(routes@),
            forall|s: Seq<char>| #[trigger]
                names(out@).contains(s) <==> done(all.take(i as int)).contains(s),
        decreases routes.len() - i,
    {
        let ghost before = out@;
        assert(all[i as int] == routes@[i as int]@);
        if routes[i].routed {
            out.push(routes[i].source.clone());
        }
        assert forall|s: Seq<char>| #[trigger] names(out@).contains(s) <==> done(
            all.take(i + 1),
        ).contains(s) by {
            let (old_part, part) = (all.take(i as int), all.take(i + 1));
            assert(names(before).contains(s) <==> done(old_part).contains(s));
            if names(before).contains(s) {
                let k = choose|k: int| 0 <= k < before.len() && (#[trigger] before[k])@ == s;
                assert(out@[k]@ == s);
            }
            if names(out@).contains(s) && !names(before).contains(s) {
                let k = choose|k: int| 0 <= k < out@.len() && (#[trigger] out@[k])@ == s;
                if k < before.len() {
                    assert(before[k]@ == s);
                }
                assert(part[i as int].routed && part[i as int].source == s);
            }
            if done(old_part).contains(s) {
                let k = choose|k: int|
                    0 <= k < old_part.len() && (#[trigger] old_part[k]).routed
                        && old_part[k].source == s;
                assert(part[k] == old_part[k]);
            }
            if done(part).contains(s) {
                let k = choose|k: int|
                    0 <= k < part.len() && (#[trigger] part[k]).routed && part[k].source == s;
                if k < i {
                    assert(old_part[k] == part[k]);
                } else {
                    assert(out@[before.len() as int]@ == s);
                }
            }
        }
        i += 1;
    }
    assert(all.take(all.len() as int) =~= all);
    assert(names(out@) =~= done(all));
    out
}

/// The names in a list.
spec fn names(list: Seq<String>) -> Set<Seq<char>> {
    Set::new(|s: Seq<char>| exists|k: int| 0 <= k < list.len() && (#[trigger] list[k])@ == s)
}

/// Whether every name of one list is in another.
fn all_in(a: &Vec<String>, b: &Vec<String>) -> (yes: bool)
    ensures
        yes == names(a@).subset_of(names(b@)),
{
    let mut i: usize = 0;
    while i < a.len()
        invariant
            i <= a.len(),
            forall|k: int| 0 <= k < i ==> names(b@).contains((#[trigger] a@[k])@),
        decreases a.len() - i,
    {
        let mut found = false;
        let mut j: usize = 0;
        while j < b.len() && !found
            invariant
                i < a.len(),
                j <= b.len(),
                found ==> names(b@).contains(a@[i as int]@),
                !found ==> forall|k: int| 0 <= k < j ==> (#[trigger] b@[k])@ != a@[i as int]@,
            decreases b.len() - j,
        {
            if b[j] == a[i] {
                assert(b@[j as int]@ == a@[i as int]@);
                found = true;
            }
            j += 1;
        }
        if !found {
            assert(names(a@).contains(a@[i as int]@));
            assert(!names(b@).contains(a@[i as int]@));
            return false;
        }
        i += 1;
    }
    assert forall|s: Seq<char>| names(a@).contains(s) implies names(b@).contains(s) by {
        let k = choose|k: int| 0 <= k < a@.len() && (#[trigger] a@[k])@ == s;
        assert(names(b@).contains(a@[k]@));
    }
    true
}

fn same_names(a: &Vec<String>, b: &Vec<String>) -> (same: bool)
    ensures
        same == (names(a@) == names(b@)),
{
    let same = all_in(a, b) && all_in(b, a);
    if same {
        assert(names(a@) =~= names(b@));
    }
    same
}

/// What one completed run produced.
#[derive(Debug)]
pub struct Routed {
    /// `(net, source terminal, destination terminal, path)` for every route that connected.
    pub paths: Vec<(String, String, String, Vec<Point>)>,
    /// Every attempt in order: `(source terminal, destination terminal, source centre, destination
    /// centre, path length)`. A length of zero is an attempt that found nothing.
    pub log: Vec<(String, String, Point, Point, usize)>,
    pub attempts: usize,
    pub iterations: i32,
    pub failed: Vec<String>,
}

impl Default for Routed {
    fn default() -> (r: Routed)
        ensures
            r.paths@.len() == 0,
            r.log@.len() == 0,
            r.attempts == 0,
            r.iterations == 0,
            r.failed@.len() == 0,
    {
        Routed { paths: Vec::new(), log: Vec::new(), attempts: 0, iterations: 0, failed: Vec::new() }
    }
}

pub open spec fn path_views(paths: Seq<(String, String, String, Vec<Point>)>) -> Seq<PathView> {
    Seq::new(paths.len(), |i: int| (paths[i].0@, paths[i].1@, paths[i].2@, paths[i].3@))
}

impl Clone for Routed {
    fn clone(&self) -> (copy: Routed)
        ensures
            path_views(copy.paths@) == path_views(self.paths@),
            copy.log@ == self.log@,
            copy.attempts == self.attempts,
            copy.iterations == self.iterations,
            copy.failed@ == self.failed@,
    {
        let mut paths: Vec<(String, String, String, Vec<Point>)> = Vec::new();
        let mut i: usize = 0;
        while i < self.paths.len()
            invariant
                i <= self.paths.len(),
                paths.len() == i,
                forall|k: int| #![trigger paths@[k]]
                    0 <= k < i ==> paths@[k].0 == self.paths@[k].0 && paths@[k].1
                        == self.paths@[k].1 && paths@[k].2 == self.paths@[k].2 && paths@[k].3@
                        == self.paths@[k].3@,
            decreases self.paths.len() - i,
        {
            let p = &self.paths[i];
            paths.push((p.0.clone(), p.1.clone(), p.2.clone(), copy_list(&p.3)));
            i += 1;
        }
        assert(path_views(paths@) =~= path_views(self.paths@));
        let mut log: Vec<(String, String, Point, Point, usize)> = Vec::new();
        i = 0;
        while i < self.log.len()
            invariant
                i <= self.log.len(),
                log@ == self.log@.take(i as int),
            decreases self.log.len() - i,
        {
            let e = &self.log[i];
            log.push((e.0.clone(), e.1.clone(), e.2, e.3, e.4));
            assert(log@ =~= self.log@.take(i + 1));
            i += 1;
        }
        assert(log@ =~= self.log@);
        Routed {
            paths,
            log,
            attempts: self.attempts,
            iterations: self.iterations,
            failed: copy_names(&self.failed),
        }
    }
}

pub open spec fn text_views(names: Seq<String>) -> Seq<Seq<char>> {
    Seq::new(names.len(), |i: int| names[i]@)
}

/// What a run is given.
pub open spec fn plan_of(
    grid: Grid,
    access: Seq<Terminal>,
    width: i32,
    spacing: i32,
    penalty: Single,
    rebuild: Option<&[(Point, Point)]>,
    allow45: bool,
    blocked: spec_fn(Point, Point) -> bool,
) -> Plan {
    Plan {
        grid,
        access: terminal_views(access),
        width: width as int,
        spacing: spacing as int,
        penalty,
        rebuild: match rebuild {
            Some(edges) => Some(edges@),
            None => None,
        },
        allow45,
        blocked,
    }
}

/// What a run produced is what its end holds.
pub open spec fn reports(
    out: Routed,
    graph: Graph,
    routes: Seq<Route>,
    access: Seq<Terminal>,
    end: (Run, int),
) -> bool {
    &&& graph@ == end.0.web
    &&& views(routes) == end.0.routes
    &&& path_views(out.paths@) == emitted(end.0.routes, terminal_views(access))
    &&& log_views(out.log@) == end.0.log
    &&& out.attempts == end.0.attempts
    &&& out.iterations == end.1
    &&& text_views(out.failed@) == unrouted(end.0.routes)
}

/// The connections made, in the order of the routes.
fn emit(routes: &Vec<Route>, access: &[Terminal]) -> (paths: Vec<
    (String, String, String, Vec<Point>),
>)
    ensures
        path_views(paths@) == emitted(views(routes@), terminal_views(access@)),
{
    let ghost all = views(routes@);
    let mut paths: Vec<(String, String, String, Vec<Point>)> = Vec::new();
    let mut i: usize = 0;
    assert(path_views(paths@) =~= emitted(all.take(0), terminal_views(access@)));
    while i < routes.len()
        invariant
            i <= routes.len(),
            all == views(routes@),
            path_views(paths@) == emitted(all.take(i as int), terminal_views(access@)),
        decreases routes.len() - i,
    {
        let r = &routes[i];
        assert(all[i as int] == r@);
        assert(all.take(i + 1).drop_last() =~= all.take(i as int));
        let ghost before = path_views(paths@);
        if r.routed && !r.locked && r.next >= 1 && r.next <= r.dests.len() {
            if let Some(t) = find_terminal(access, &r.source) {
                let d = &r.dests[r.next - 1];
                paths.push(
                    (t.net.clone(), r.source.clone(), d.terminal.clone(), copy_points(&r.points)),
                );
                assert(path_views(paths@) =~= before.push(
                    (t.net@, r.source@, d.terminal@, r.points@),
                ));
            }
        }
        i += 1;
    }
    assert(all.take(all.len() as int) =~= all);
    paths
}

/// The sources of the routes that are not routed, in order.
fn unrouted_sources(routes: &Vec<Route>) -> (out: Vec<String>)
    ensures
        text_views(out@) == unrouted(views(routes@)),
{
    let ghost all = views(routes@);
    let mut out: Vec<String> = Vec::new();
    let mut i: usize = 0;
    assert(text_views(out@) =~= unrouted(all.take(0)));
    while i < routes.len()
        invariant
            i <= routes.len(),
            all == views(routes@),
            text_views(out@) == unrouted(all.take(i as int)),
        decreases routes.len() - i,
    {
        assert(all[i as int] == routes@[i as int]@);
        assert(all.take(i + 1).drop_last() =~= all.take(i as int));
        let ghost before = text_views(out@);
        if !routes[i].routed {
            out.push(routes[i].source.clone());
            assert(text_views(out@) =~= before.push(routes@[i as int].source@));
        }
        i += 1;
    }
    assert(all.take(all.len() as int) =~= all);
    out
}

/// Displace what the failures cross, and queue it and them to start over.
fn rearrange(
    graph: &mut Graph,
    routes: &mut Vec<Route>,
    bench: &mut Bench,
    failed: &Vec<usize>,
    extent: i64,
)
    requires
        fit(*old(graph), old(routes)@, *old(bench)),
        failed@ == failures(views(old(routes)@)),
        forall|i: int| 0 <= i < old(routes).len() ==> (#[trigger] old(routes)@[i]).priority < i32::MAX,
        -0x2_0000_0000 <= extent <= 0x2_0000_0000,
    ensures
        fit(*final(graph), final(routes)@, *final(bench)),
        final(routes).len() == old(routes).len(),
        forall|i: int|
            0 <= i < final(routes).len() ==> (#[trigger] final(routes)@[i]).priority <= old(
                routes,
            )@[i].priority + 1,
        ({
            let run = run_of(*old(graph), old(routes)@, *old(bench));
            let out = ripped(run.routes, failed@, extent as int);
            run_of(*final(graph), final(routes)@, *final(bench)) == retried_all(
                uprooted_all(run, out),
                failed@,
            )
        }),
{
    let ghost run = run_of(*graph, routes@, *bench);
    let ghost all = views(routes@);
    let ghost n = routes@.len();
    proof {
        assert(routes.len() == routes@.len());
        let cond = |i: usize|
            all[i as int].failed() && !crate::rdl::route::served(all, all[i as int].source);
        lemma_those(all.len(), cond);
        assert(failed@ == those(all.len(), cond));
    }
    let out = choose_ripped(routes, failed, extent);
    let mut k: usize = 0;
    assert(out@.take(0) =~= Seq::<usize>::empty());
    while k < out.len()
        invariant
            k <= out.len(),
            fit(*graph, routes@, *bench),
            routes.len() == n,
            old(routes).len() == n,
            forall|i: int| 0 <= i < out@.len() ==> (#[trigger] out@[i]) < n,
            forall|i: int|
                0 <= i < n ==> (#[trigger] routes@[i]).priority == old(routes)@[i].priority,
            run_of(*graph, routes@, *bench) == uprooted_all(run, out@.take(k as int)),
        decreases out.len() - k,
    {
        assert(out@.take(k + 1).drop_last() =~= out@.take(k as int));
        let ghost before = routes@;
        let ghost before_run = run_of(*graph, routes@, *bench);
        uproot(graph, routes, bench, out[k]);
        assert forall|i: int| 0 <= i < n implies (#[trigger] routes@[i]).priority
            == before[i].priority by {
            let now = run_of(*graph, routes@, *bench);
            assert(now.routes[i] == routes@[i]@);
            assert(before_run.routes[i] == before[i]@);
        }
        k += 1;
    }
    assert(out@.take(out@.len() as int) =~= out@);
    let ghost mid = run_of(*graph, routes@, *bench);
    let ghost held = *graph;
    k = 0;
    assert(failed@.take(0) =~= Seq::<usize>::empty());
    while k < failed.len()
        invariant
            k <= failed.len(),
            held == *graph,
            fit(*graph, routes@, *bench),
            routes.len() == n,
            old(routes).len() == n,
            increasing(failed@),
            forall|i: int| 0 <= i < failed@.len() ==> (#[trigger] failed@[i]) < n,
            forall|i: int|
                0 <= i < n ==> (#[trigger] routes@[i]).priority <= old(routes)@[i].priority + 1,
            forall|j: int|
                k <= j < failed@.len() ==> routes@[(#[trigger] failed@[j]) as int].priority < i32::MAX,
            forall|j: int|
                k <= j < failed@.len() ==> routes@[(#[trigger] failed@[j]) as int].priority
                    == old(routes)@[failed@[j] as int].priority,
            run_of(*graph, routes@, *bench) == retried_all(mid, failed@.take(k as int)),
        decreases failed.len() - k,
    {
        assert(failed@.take(k + 1).drop_last() =~= failed@.take(k as int));
        let ghost before = routes@;
        let ghost before_run = run_of(*graph, routes@, *bench);
        let f: usize = failed[k];
        assert(failed@[k as int] == f);
        retry(routes, bench, f);
        let ghost now = run_of(*graph, routes@, *bench);
        assert(now == retried(before_run, f));
        assert forall|i: int| 0 <= i < n implies (#[trigger] routes@[i]).priority == if i == f {
            before[i].priority + 1
        } else {
            before[i].priority as int
        } by {
            assert(now.routes[i] == routes@[i]@);
            assert(before_run.routes[i] == before[i]@);
        }
        assert forall|j: int| k + 1 <= j < failed@.len() implies routes@[(
        #[trigger] failed@[j]) as int].priority == before[failed@[j] as int].priority by {
            assert(failed@[k as int] < failed@[j]);
        }
        k += 1;
    }
    assert(failed@.take(failed@.len() as int) =~= failed@);
}

/// Run every route to completion, rearranging when one cannot get through.
///
/// The queue is drained in [`Route::precedes`] order. A route that connects is committed and its
/// corridor removed from the graph; one that does not is put back with its next destination. When
/// the queue empties, whatever failed raises its priority, displaces whatever crosses its probe,
/// and everything goes round again.
///
/// Two guards stop it thrashing: it gives up after `max_iterations`, and a round that routed
/// nothing new rips nothing up, because repeating a round that achieved nothing cannot achieve
/// anything the second time either.
///
/// A route that comes out routed, and did not go in so, has a path from a target of its own terminal
/// to a target of the destination it tried last.
pub fn route_all<F: Fn(Point, Point) -> bool>(
    graph: &mut Graph,
    grid: &Grid,
    routes: &mut Vec<Route>,
    access: &[Terminal],
    width: i32,
    spacing: i32,
    turn_penalty: Single,
    max_iterations: i32,
    rebuild: Option<&[(Point, Point)]>,
    allow45: bool,
    obstructed: &F,
) -> (out: Routed)
    requires
        old(graph).wf(),
        old(graph)@.nonneg(),
        max_iterations < i32::MAX,
        forall|i: int|
            0 <= i < old(routes).len() ==> (#[trigger] old(routes)@[i]).priority + max_iterations
                <= i32::MAX,
        total(*obstructed),
    ensures
        final(graph).wf(),
        final(routes).len() == old(routes).len(),
        forall|i: int|
            0 <= i < final(routes).len() && (#[trigger] final(routes)@[i]).routed && !old(
                routes,
            )@[i].routed ==> lands(final(routes)@[i]@, terminal_views(access@)),
        forall|rule: spec_fn(Point, Point) -> bool| #[trigger]
            follows(*obstructed, rule) ==> reports(
                out,
                *final(graph),
                final(routes)@,
                access@,
                plan_of(
                    *grid,
                    access@,
                    width,
                    spacing,
                    turn_penalty,
                    rebuild,
                    allow45,
                    rule,
                ).rounds(
                    fresh_run(old(graph)@, views(old(routes)@)),
                    0,
                    Set::empty(),
                    max_iterations as int,
                ),
            ),
{
    let job = Job { grid, access, width, spacing, turn_penalty, rebuild, allow45 };
    let ghost start = fresh_run(graph@, views(routes@));
    let mut bench = Bench { committed: Vec::new(), queue: Vec::new(), log: Vec::new(), attempts: 0 };
    let ghost unset = |i: usize| !views(routes@)[i as int].routed;
    let mut i: usize = 0;
    while i < routes.len()
        invariant
            i <= routes.len(),
            unset == (|i: usize| !views(routes@)[i as int].routed),
            bench.committed@.len() == i,
            forall|k: int| 0 <= k < i ==> (#[trigger] bench.committed@[k]) is None,
            bench.queue@ == those(i as nat, unset),
            bench.log@.len() == 0,
            bench.attempts == 0,
        decreases routes.len() - i,
    {
        bench.committed.push(None);
        assert(views(routes@)[i as int] == routes@[i as int]@);
        if !routes[i].routed {
            bench.queue.push(i);
        }
        i += 1;
    }
    proof {
        lemma_those(routes@.len(), unset);
        assert(records(bench.committed@) =~= start.committed);
        assert(log_views(bench.log@) =~= Seq::<LogView>::empty());
        assert(run_of(*graph, routes@, bench) == start);
        assert(fair(start, terminal_views(access@), start.routes)) by {
            let queue = start.queue;
            assert forall|a: int, b: int| 0 <= a < b < queue.len() implies queue[a]
                != queue[b] by {
                assert(queue[a] < queue[b]);
            }
        }
    }
    let mut last_done: Vec<String> = Vec::new();
    assert(names(last_done@) =~= Set::<Seq<char>>::empty());
    let mut iterations: i32 = 0;
    let extent: i64 = spacing as i64 + width as i64;
    let ghost most = max_iterations as int;
    loop
        invariant_except_break
            job == (Job { grid, access, width, spacing, turn_penalty, rebuild, allow45 }),
            extent == spacing + width,
            most == max_iterations,
            max_iterations < i32::MAX,
            0 <= iterations,
            iterations == 0 || iterations <= max_iterations,
            fit(*graph, routes@, bench),
            fair(run_of(*graph, routes@, bench), terminal_views(access@), start.routes),
            total(*obstructed),
            forall|i: int|
                0 <= i < routes.len() ==> (#[trigger] routes@[i]).priority + max_iterations
                    - iterations <= i32::MAX,
            forall|rule: spec_fn(Point, Point) -> bool| #[trigger]
                follows(*obstructed, rule) ==> job.plan(rule).rounds(
                    start,
                    0,
                    Set::empty(),
                    most,
                ) == job.plan(rule).rounds(
                    run_of(*graph, routes@, bench),
                    iterations as int,
                    names(last_done@),
                    most,
                ),
        ensures
            fit(*graph, routes@, bench),
            fair(run_of(*graph, routes@, bench), terminal_views(access@), start.routes),
            forall|rule: spec_fn(Point, Point) -> bool| #[trigger]
                follows(*obstructed, rule) ==> job.plan(rule).rounds(
                    start,
                    0,
                    Set::empty(),
                    most,
                ) == (run_of(*graph, routes@, bench), iterations as int),
        decreases max_iterations - iterations,
    {
        let ghost before = routes@;
        drain(&job, graph, routes, &mut bench, obstructed);
        proof {
            assert forall|i: int| 0 <= i < routes.len() implies (#[trigger] routes@[i]).priority
                == before[i].priority by {
                assert(views(before)[i] == before[i]@);
                assert(views(routes@)[i] == routes@[i]@);
            }
        }
        iterations = iterations + 1;
        if iterations > max_iterations {
            break;
        }
        let done = done_sources(routes);
        if same_names(&done, &last_done) {
            break;
        }
        last_done = done;
        let failed = failed_routes(routes);
        if failed.len() == 0 {
            break;
        }
        proof {
            assert(routes.len() == routes@.len());
            lemma_rearranged_fair(
                run_of(*graph, routes@, bench),
                terminal_views(access@),
                start.routes,
                extent as int,
            );
        }
        rearrange(graph, routes, &mut bench, &failed, extent);
    }
    assert forall|i: int|
        0 <= i < routes.len() && (#[trigger] routes@[i]).routed && !start.routes[i].routed implies
        lands(routes@[i]@, terminal_views(access@)) by {
        assert(run_of(*graph, routes@, bench).routes[i] == routes@[i]@);
    }
    let paths = emit(routes, access);
    let failed = unrouted_sources(routes);
    Routed { paths, log: bench.log, attempts: bench.attempts, iterations, failed }
}

/// The run gives up: no more rounds are made than were allowed, and the one in which that shows.
pub proof fn law_rounds_are_bounded(
    plan: Plan,
    run: Run,
    iterations: int,
    last: Set<Seq<char>>,
    most: int,
)
    requires
        iterations <= most,
    ensures
        iterations < plan.rounds(run, iterations, last, most).1 <= most + 1,
    decreases most - iterations,
{
    let end = plan.drained(lined_up(run));
    let failed = failures(end.routes);
    if !(iterations + 1 > most || done(end.routes) == last || failed.len() == 0) {
        let out = ripped(end.routes, failed, plan.spacing + plan.width);
        law_rounds_are_bounded(
            plan,
            retried_all(uprooted_all(end, out), failed),
            iterations + 1,
            done(end.routes),
            most,
        );
    }
}

/// The route made a connection: it is routed, and neither locked nor without a destination tried.
pub open spec fn is_emitted(routes: Seq<RouteView>, access: Seq<TerminalView>, i: usize) -> bool {
    let r = routes[i as int];
    terminal_of(access, r.source) is Some && r.routed && !r.locked && 1 <= r.next <= r.dests.len()
}

/// The connection a route made: to the destination it tried last.
pub open spec fn connection(r: RouteView, access: Seq<TerminalView>) -> PathView {
    (
        terminal_of(access, r.source)->Some_0.net,
        r.source,
        r.dests[r.next - 1].terminal,
        r.points,
    )
}

/// Connections are given in the order of the routes, one for each route that made one; a route that
/// failed gives none.
pub proof fn law_emitted_in_list_order(routes: Seq<RouteView>, access: Seq<TerminalView>)
    requires
        routes.len() <= usize::MAX,
    ensures
        ({
            let list = those(routes.len(), |i: usize| is_emitted(routes, access, i));
            &&& emitted(routes, access).len() == list.len()
            &&& forall|k: int|
                0 <= k < list.len() ==> #[trigger] emitted(routes, access)[k] == connection(
                    routes[list[k] as int],
                    access,
                )
        }),
    decreases routes.len(),
{
    if routes.len() > 0 {
        let head = routes.drop_last();
        law_emitted_in_list_order(head, access);
        lemma_those_agree(
            head.len(),
            |i: usize| is_emitted(head, access, i),
            |i: usize| is_emitted(routes, access, i),
        );
        let m = (routes.len() - 1) as usize;
        let before = those(head.len(), |i: usize| is_emitted(routes, access, i));
        let list = those(routes.len(), |i: usize| is_emitted(routes, access, i));
        lemma_those(head.len(), |i: usize| is_emitted(routes, access, i));
        assert(list == if is_emitted(routes, access, m) {
            before.push(m)
        } else {
            before
        });
        assert forall|k: int| 0 <= k < list.len() implies #[trigger] emitted(routes, access)[k]
            == connection(routes[list[k] as int], access) by {
            if k < before.len() {
                assert(emitted(routes, access)[k] == emitted(head, access)[k]);
                assert(head[before[k] as int] == routes[before[k] as int]);
            }
        }
    }
}

/// Conditions that agree hold of the same numbers.
proof fn lemma_those_agree(n: nat, a: spec_fn(usize) -> bool, b: spec_fn(usize) -> bool)
    requires
        n <= usize::MAX,
        forall|i: usize| i < n ==> #[trigger] a(i) == b(i),
    ensures
        those(n, a) == those(n, b),
    decreases n,
{
    if n > 0 {
        lemma_those_agree((n - 1) as nat, a, b);
        assert(a((n - 1) as usize) == b((n - 1) as usize));
    }
}

} // verus!
