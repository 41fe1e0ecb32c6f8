//! Routing jobs: what each connects, in what order, and what to do when one fails.

use crate::geom::{around, copy_points, meets, pt, touches_rect, widen, wpt, Point, Rect};
use crate::lists::{copy_list, lemma_those, those};
use crate::rdl::cost::{distance, length, square_length, squared};
use crate::sort::{
    arrange, arranged, compares, law_arranged_in_order, law_arranged_same, orders, weak_order,
};
use std::cmp::Ordering;
use vstd::prelude::*;

verus! {

/// A destination a route may connect to.
#[derive(Debug, PartialEq, Eq)]
pub struct Dest {
    pub terminal: String,
    pub instance: String,
    pub centre: Point,
    pub cover: bool,
    pub id: u64,
}

/// What a destination is.
pub struct DestView {
    pub terminal: Seq<char>,
    pub instance: Seq<char>,
    pub centre: Point,
    pub cover: bool,
    pub id: u64,
}

/// One routing job: a bump terminal and the terminals it may reach, in attempt order.
#[derive(Debug, PartialEq, Eq)]
pub struct Route {
    pub source: String,
    pub instance: String,
    pub centre: Point,
    pub id: u64,
    pub dests: Vec<Dest>,
    pub next: usize,
    pub priority: i32,
    pub routed: bool,
    /// Set until the route has been taken off the queue at least once.
    pub pending: bool,
    /// The path committed for this route, empty when it is not routed.
    pub points: Vec<Point>,
    /// The route's terminals already touch: it is marked routed before the queue is built and is
    /// never attempted.
    pub locked: bool,
    /// The stubs that bridge a gap below the spacing, written instead of a route. Empty when the
    /// shapes simply overlap.
    pub stubs: Vec<Rect>,
}

/// What a routing job is.
pub struct RouteView {
    pub source: Seq<char>,
    pub instance: Seq<char>,
    pub centre: Point,
    pub id: u64,
    pub dests: Seq<DestView>,
    pub next: usize,
    pub priority: i32,
    pub routed: bool,
    pub pending: bool,
    pub points: Seq<Point>,
    pub locked: bool,
    pub stubs: Seq<Rect>,
}

impl View for Dest {
    type V = DestView;

    open spec fn view(&self) -> DestView {
        DestView {
            terminal: self.terminal@,
            instance: self.instance@,
            centre: self.centre,
            cover: self.cover,
            id: self.id,
        }
    }
}

impl View for Route {
    type V = RouteView;

    open spec fn view(&self) -> RouteView {
        RouteView {
            source: self.source@,
            instance: self.instance@,
            centre: self.centre,
            id: self.id,
            dests: Seq::new(self.dests@.len(), |i: int| self.dests@[i]@),
            next: self.next,
            priority: self.priority,
            routed: self.routed,
            pending: self.pending,
            points: self.points@,
            locked: self.locked,
            stubs: self.stubs@,
        }
    }
}

/// The routes as what they are.
pub open spec fn views(routes: Seq<Route>) -> Seq<RouteView> {
    Seq::new(routes.len(), |i: int| routes[i]@)
}

impl Clone for Dest {
    fn clone(&self) -> (copy: Dest)
        ensures
            copy@ == self@,
    {
        Dest {
            terminal: self.terminal.clone(),
            instance: self.instance.clone(),
            centre: self.centre,
            cover: self.cover,
            id: self.id,
        }
    }
}

fn copy_dests(dests: &Vec<Dest>) -> (copy: Vec<Dest>)
    ensures
        copy.len() == dests.len(),
        forall|i: int| 0 <= i < copy.len() ==> (#[trigger] copy@[i])@ == dests@[i]@,
{
    let mut copy: Vec<Dest> = Vec::new();
    let mut i: usize = 0;
    while i < dests.len()
        invariant
            i <= dests.len(),
            copy.len() == i,
            forall|k: int| 0 <= k < i ==> (#[trigger] copy@[k])@ == dests@[k]@,
        decreases dests.len() - i,
    {
        copy.push(dests[i].clone());
        i += 1;
    }
    copy
}

impl Clone for Route {
    fn clone(&self) -> (copy: Route)
        ensures
            copy@ == self@,
    {
        let copy = Route {
            source: self.source.clone(),
            instance: self.instance.clone(),
            centre: self.centre,
            id: self.id,
            dests: copy_dests(&self.dests),
            next: self.next,
            priority: self.priority,
            routed: self.routed,
            pending: self.pending,
            points: copy_points(&self.points),
            locked: self.locked,
            stubs: copy_list(&self.stubs),
        };
        assert(copy@.dests =~= self@.dests);
        copy
    }
}

impl RouteView {
    /// A destination is left to try.
    pub open spec fn more(self) -> bool {
        self.next < self.dests.len()
    }

    /// The next destination to try.
    pub open spec fn peeked(self) -> Option<DestView> {
        if self.more() {
            Some(self.dests[self.next as int])
        } else {
            None
        }
    }

    /// The destination tried last; before any was tried, the first.
    pub open spec fn reached(self) -> Option<DestView> {
        let k = if self.next == 0 {
            0
        } else {
            self.next - 1
        };
        if k < self.dests.len() {
            Some(self.dests[k])
        } else {
            None
        }
    }

    /// Off the queue, unrouted, and out of destinations.
    pub open spec fn failed(self) -> bool {
        !self.pending && !self.routed && !self.more()
    }

    /// A route with a path of its own: one that is merely locked has none.
    pub open spec fn laid(self) -> bool {
        self.routed && self.points.len() > 1
    }
}

/// The first route is attempted before the second: the one with the higher priority; among equals,
/// where both have a destination left, the one with the shorter next connection, and then the one
/// with the higher terminal id.
pub open spec fn before(a: RouteView, b: RouteView) -> bool {
    a.priority > b.priority || (a.priority == b.priority && (match (a.peeked(), b.peeked()) {
        (Some(x), Some(y)) => {
            let da = square_length(pt(a.centre), pt(x.centre));
            let db = square_length(pt(b.centre), pt(y.centre));
            da < db || (da == db && a.id > b.id)
        },
        _ => false,
    }))
}

/// Which of two routes is attempted first.
pub open spec fn precedence(a: RouteView, b: RouteView) -> Ordering {
    if before(a, b) {
        Ordering::Less
    } else if before(b, a) {
        Ordering::Greater
    } else {
        Ordering::Equal
    }
}

impl Route {
    /// Whether a destination is left to try.
    pub fn has_next(&self) -> (b: bool)
        ensures
            b == self@.more(),
    {
        self.next < self.dests.len()
    }

    /// The next destination to try.
    pub fn peek(&self) -> (d: Option<&Dest>)
        ensures
            d matches Some(x) ==> self@.peeked() == Some(x@),
            d is None ==> self@.peeked() is None,
    {
        if self.next < self.dests.len() {
            Some(&self.dests[self.next])
        } else {
            None
        }
    }

    /// The destination tried last; before any was tried, the first.
    pub fn tried(&self) -> (d: Option<&Dest>)
        ensures
            d matches Some(x) ==> self@.reached() == Some(x@),
            d is None ==> self@.reached() is None,
    {
        let k: usize = if self.next == 0 { 0 } else { self.next - 1 };
        if k < self.dests.len() {
            Some(&self.dests[k])
        } else {
            None
        }
    }

    /// Whether this route is attempted before another.
    pub fn goes_before(&self, other: &Route) -> (b: bool)
        ensures
            b == before(self@, other@),
    {
        if self.priority != other.priority {
            return self.priority > other.priority;
        }
        match (self.peek(), other.peek()) {
            (Some(a), Some(b)) => {
                let da: i128 = squared(self.centre, a.centre);
                let db: i128 = squared(other.centre, b.centre);
                da < db || (da == db && self.id > other.id)
            },
            _ => false,
        }
    }

    /// Which of two routes is attempted first.
    ///
    /// Higher priority first: priority only rises when a route is ripped up, so a route that has
    /// been displaced gets another go before anything new is tried. Among equals, the shortest next
    /// connection first; a tie on distance is settled by terminal id. A route with no destinations
    /// left is ordered by priority alone.
    pub fn precedes(&self, other: &Route) -> (o: Ordering)
        ensures
            o == precedence(self@, other@),
    {
        if self.goes_before(other) {
            Ordering::Less
        } else if other.goes_before(self) {
            Ordering::Greater
        } else {
            Ordering::Equal
        }
    }
}

/// Where a destination stands in the order of attempts: those that are no cover first, then the
/// nearer, then by id.
pub open spec fn sooner(centre: Point, a: DestView, b: DestView) -> bool {
    let da = square_length(pt(centre), pt(a.centre));
    let db = square_length(pt(centre), pt(b.centre));
    if a.cover != b.cover {
        !a.cover
    } else if da != db {
        da < db
    } else {
        a.id < b.id
    }
}

/// The destinations in the order a route tries them: those on other instances than the source,
/// sorted.
pub open spec fn dest_order(instance: Seq<char>, centre: Point, dests: Seq<Dest>) -> Seq<usize> {
    arranged(
        those(dests.len(), |i: usize| dests[i as int]@.instance != instance),
        |i: usize, j: usize| sooner(centre, dests[i as int]@, dests[j as int]@),
    )
}

fn is_sooner(centre: Point, a: &Dest, b: &Dest) -> (r: bool)
    ensures
        r == sooner(centre, a@, b@),
{
    let da: i128 = squared(centre, a.centre);
    let db: i128 = squared(centre, b.centre);
    if a.cover != b.cover {
        !a.cover
    } else if da != db {
        da < db
    } else {
        a.id < b.id
    }
}

/// The order a route tries its destinations in.
///
/// Destinations on the same instance as the source are dropped: a bump does not route to itself.
/// What remains is sorted non-cover first, then by distance, then by terminal id. A bump prefers a
/// pad over another bump even when the other bump is nearer: sorting purely by distance chains
/// bumps to each other and leaves the pads unreached.
pub fn order_dests(source_instance: &str, source_centre: Point, dests: &[Dest]) -> (out: Vec<Dest>)
    ensures
        out.len() == dest_order(source_instance@, source_centre, dests@).len(),
        forall|k: int| #![trigger out@[k]]
            0 <= k < out.len() ==> out@[k]@ == dests@[dest_order(
                source_instance@,
                source_centre,
                dests@,
            )[k] as int]@,
{
    let ghost keep = |i: usize| dests@[i as int]@.instance != source_instance@;
    let mut kept: Vec<usize> = Vec::new();
    let mut i: usize = 0;
    while i < dests.len()
        invariant
            i <= dests.len(),
            keep == (|i: usize| dests@[i as int]@.instance != source_instance@),
            kept@ == those(i as nat, keep),
        decreases dests.len() - i,
    {
        if *dests[i].instance.as_str() != *source_instance {
            kept.push(i);
        }
        i += 1;
    }
    let ghost rule = |i: usize, j: usize| sooner(source_centre, dests@[i as int]@, dests@[j as int]@);
    let less = |i: usize, j: usize| -> (r: bool)
        requires
            i < dests.len(),
            j < dests.len(),
        ensures
            r == sooner(source_centre, dests@[i as int]@, dests@[j as int]@),
        { is_sooner(source_centre, &dests[i], &dests[j]) };
    proof {
        lemma_those(dests@.len(), keep);
        assert(compares(less, kept@));
        assert(orders(less, rule));
    }
    let order = arrange(&kept, &less);
    let mut out: Vec<Dest> = Vec::new();
    let mut k: usize = 0;
    while k < order.len()
        invariant
            k <= order.len(),
            out.len() == k,
            dests@.len() <= usize::MAX,
            kept@ == those(dests@.len(), keep),
            forall|y: usize| #[trigger] order@.contains(y) <==> kept@.contains(y),
            forall|m: int| #![trigger out@[m]]
                0 <= m < k ==> out@[m]@ == dests@[order@[m] as int]@,
        decreases order.len() - k,
    {
        proof {
            lemma_those(dests@.len(), keep);
            assert(order@.contains(order@[k as int]));
        }
        out.push(dests[order[k]].clone());
        k += 1;
    }
    out
}

/// A route has failed when it is off the queue, unrouted, and out of destinations.
///
/// All three. A route still on the queue has not failed, it has not been tried; and one with
/// destinations left is not finished with.
pub fn is_failed(r: &Route) -> (b: bool)
    ensures
        b == r@.failed(),
{
    !r.pending && !r.routed && !r.has_next()
}

/// A routed route starts at the terminal, or has reached it.
pub open spec fn served(routes: Seq<RouteView>, terminal: Seq<char>) -> bool {
    exists|k: int|
        0 <= k < routes.len() && (#[trigger] routes[k]).routed && (routes[k].source == terminal || (
        routes[k].reached() matches Some(d) && d.terminal == terminal))
}

/// The failures worth acting on.
pub open spec fn failures(routes: Seq<RouteView>) -> Seq<usize> {
    those(
        routes.len(),
        |i: usize| routes[i as int].failed() && !served(routes, routes[i as int].source),
    )
}

fn is_served(routes: &[Route], terminal: &String) -> (b: bool)
    ensures
        b == served(views(routes@), terminal@),
{
    let ghost all = views(routes@);
    let mut k: usize = 0;
    while k < routes.len()
        invariant
            k <= routes.len(),
            all == views(routes@),
            forall|m: int|
                0 <= m < k ==> !((#[trigger] all[m]).routed && (all[m].source == terminal@ || (
                all[m].reached() matches Some(d) && d.terminal == terminal@))),
        decreases routes.len() - k,
    {
        let r = &routes[k];
        assert(all[k as int] == r@);
        if r.routed {
            if r.source == *terminal {
                return true;
            }
            if let Some(d) = r.tried() {
                if d.terminal == *terminal {
                    return true;
                }
            }
        }
        k += 1;
    }
    false
}

/// The failures worth acting on.
///
/// A route whose own source terminal was reached by some other route is not a failure: the bump is
/// connected, just not by this route. Counting it would rip up working routes to retry something
/// already done.
pub fn failed_routes(routes: &[Route]) -> (out: Vec<usize>)
    ensures
        out@ == failures(views(routes@)),
{
    let ghost all = views(routes@);
    let ghost cond = |i: usize| all[i as int].failed() && !served(all, all[i as int].source);
    let mut out: Vec<usize> = Vec::new();
    let mut i: usize = 0;
    while i < routes.len()
        invariant
            i <= routes.len(),
            all == views(routes@),
            cond == (|i: usize| all[i as int].failed() && !served(all, all[i as int].source)),
            out@ == those(i as nat, cond),
        decreases routes.len() - i,
    {
        assert(all[i as int] == routes@[i as int]@);
        if is_failed(&routes[i]) && !is_served(routes, &routes[i].source) {
            out.push(i);
        }
        i += 1;
    }
    out
}

/// The destination a failed route probes: they take turns as its priority rises.
pub open spec fn probed(r: RouteView) -> int {
    (if r.priority < 0 {
        0
    } else {
        r.priority as int
    }) % (r.dests.len() as int)
}

/// How far around its probe a failed route displaces others: farther with each failure.
pub open spec fn margin(r: RouteView, extent: int) -> int {
    (r.priority + 1) * extent
}

fn probe_index(r: &Route) -> (i: usize)
    requires
        r.dests.len() > 0,
    ensures
        i == probed(r@),
        i < r.dests.len(),
{
    let p: u128 = if r.priority < 0 { 0 } else { r.priority as u128 };
    let n: u128 = r.dests.len() as u128;
    (p % n) as usize
}

/// The corridor a failed route probes when looking for routes to displace: a straight line from the
/// route's source to one of its destinations, widened by a margin.
///
/// Two things change with each failure, and they are the whole convergence mechanism: the
/// destination rotates, so a route that keeps failing probes a different corridor each round, and
/// the margin widens, so it displaces more each time.
pub fn ripup_probe(r: &Route, extent: i32) -> (p: Option<(Point, Point, i32)>)
    requires
        r.dests.len() > 0 ==> i32::MIN <= margin(r@, extent as int) <= i32::MAX,
    ensures
        r.dests.len() == 0 ==> p is None,
        r.dests.len() > 0 ==> p == Some(
            (r.centre, r@.dests[probed(r@)].centre, margin(r@, extent as int) as i32),
        ),
{
    if r.dests.len() == 0 {
        return None;
    }
    let idx: usize = probe_index(r);
    let (p, e): (i64, i64) = (r.priority as i64 + 1, extent as i64);
    assert(-0x4000_0000_0000_0000 <= p * e <= 0x4000_0000_0000_0000) by (nonlinear_arith)
        requires
            -0x8000_0000 <= p <= 0x8000_0000,
            -0x8000_0000 <= e <= 0x8000_0000,
    ;
    let m: i64 = p * e;
    Some((r.centre, r.dests[idx].centre, m as i32))
}

/// This routed route may be displaced for a failure of that priority: one of equal priority may.
pub open spec fn yields(candidate: RouteView, failed_priority: i32) -> bool {
    candidate.routed && failed_priority >= candidate.priority
}

/// May this routed route be displaced for a failure of that priority?
///
/// A route may displace another of equal priority; without that a design where everything has
/// failed once can never rearrange itself.
pub fn allows_ripup(candidate: &Route, failed_priority: i32) -> (b: bool)
    ensures
        b == yields(candidate@, failed_priority),
{
    candidate.routed && failed_priority >= candidate.priority
}

/// The line meets the box of half-side `m` around one of the points.
pub open spec fn passes(a: Point, b: Point, points: Seq<Point>, m: int) -> bool {
    exists|k: int|
        0 <= k < points.len() && meets(pt(a), pt(b), around(pt(#[trigger] points[k]), m))
}

/// The routes a failure would displace: those that yield to it and lie in the corridor it probes.
pub open spec fn displaced(failed: RouteView, routes: Seq<RouteView>, extent: int) -> Seq<usize> {
    if failed.dests.len() == 0 {
        Seq::empty()
    } else {
        those(
            routes.len(),
            |i: usize|
                yields(routes[i as int], failed.priority) && passes(
                    failed.centre,
                    failed.dests[probed(failed)].centre,
                    routes[i as int].points,
                    margin(failed, extent),
                ),
        )
    }
}

/// A segment meets a rectangle that holds one of its ends.
proof fn lemma_holds_end(p: (int, int), q: (int, int), r: (int, int, int, int))
    requires
        r.0 <= p.0 <= r.2,
        r.1 <= p.1 <= r.3,
    ensures
        meets(p, q, r),
{
    let (a, b) = (q.0 - p.0, q.1 - p.1);
    let (l, h, w, e) = (r.1 - p.1, r.3 - p.1, r.0 - p.0, r.2 - p.0);
    assert(a >= 0 ==> a * l <= 0 && a * h >= 0) by (nonlinear_arith)
        requires
            l <= 0,
            h >= 0,
    ;
    assert(a <= 0 ==> a * l >= 0 && a * h <= 0) by (nonlinear_arith)
        requires
            l <= 0,
            h >= 0,
    ;
    assert(b >= 0 ==> b * w <= 0 && b * e >= 0) by (nonlinear_arith)
        requires
            w <= 0,
            e >= 0,
    ;
    assert(b <= 0 ==> b * w >= 0 && b * e <= 0) by (nonlinear_arith)
        requires
            w <= 0,
            e >= 0,
    ;
}

fn line_passes(a: Point, b: Point, points: &Vec<Point>, m: i128) -> (yes: bool)
    ensures
        yes == passes(a, b, points@, m as int),
{
    let cap: i64 = if m > 0x2_0000_0000 {
        0x2_0000_0000
    } else if m < -0x2_0000_0000 {
        -0x2_0000_0000
    } else {
        m as i64
    };
    let mut k: usize = 0;
    while k < points.len()
        invariant
            k <= points.len(),
            -0x2_0000_0000 <= cap <= 0x2_0000_0000,
            m > 0x2_0000_0000 ==> cap == 0x2_0000_0000,
            m < -0x2_0000_0000 ==> cap == -0x2_0000_0000,
            -0x2_0000_0000 <= m <= 0x2_0000_0000 ==> cap == m,
            forall|j: int|
                0 <= j < k ==> !meets(pt(a), pt(b), around(pt(#[trigger] points@[j]), m as int)),
        decreases points.len() - k,
    {
        let c = widen(points[k]);
        proof {
            if m > 0x2_0000_0000 {
                lemma_holds_end(pt(a), pt(b), around(wpt(c), m as int));
                lemma_holds_end(pt(a), pt(b), around(wpt(c), cap as int));
            }
        }
        if touches_rect(widen(a), widen(b), (c.0 - cap, c.1 - cap, c.0 + cap, c.1 + cap)) {
            assert(meets(pt(a), pt(b), around(pt(points@[k as int]), m as int)));
            return true;
        }
        k += 1;
    }
    false
}

/// The routes a failure would displace, for an extent of any size.
pub fn displaced_by(failed: &Route, routes: &[Route], extent: i64) -> (out: Vec<usize>)
    requires
        -0x2_0000_0000 <= extent <= 0x2_0000_0000,
    ensures
        out@ == displaced(failed@, views(routes@), extent as int),
{
    let mut out: Vec<usize> = Vec::new();
    if failed.dests.len() == 0 {
        return out;
    }
    let ghost all = views(routes@);
    let ghost f = failed@;
    let idx: usize = probe_index(failed);
    let b = failed.dests[idx].centre;
    let (p, e): (i128, i128) = (failed.priority as i128 + 1, extent as i128);
    assert(-0x1_0000_0000_0000_0000_0000 <= p * e <= 0x1_0000_0000_0000_0000_0000)
        by (nonlinear_arith)
        requires
            -0x8000_0000 <= p <= 0x8000_0000,
            -0x2_0000_0000 <= e <= 0x2_0000_0000,
    ;
    let m: i128 = p * e;
    let ghost cond = |i: usize|
        yields(all[i as int], f.priority) && passes(
            f.centre,
            f.dests[probed(f)].centre,
            all[i as int].points,
            margin(f, extent as int),
        );
    let mut i: usize = 0;
    while i < routes.len()
        invariant
            i <= routes.len(),
            all == views(routes@),
            f == failed@,
            b == f.dests[probed(f)].centre,
            m == margin(f, extent as int),
            cond == (|i: usize|
                yields(all[i as int], f.priority) && passes(
                    f.centre,
                    f.dests[probed(f)].centre,
                    all[i as int].points,
                    margin(f, extent as int),
                )),
            out@ == those(i as nat, cond),
        decreases routes.len() - i,
    {
        assert(all[i as int] == routes@[i as int]@);
        if allows_ripup(&routes[i], failed.priority) && line_passes(
            failed.centre,
            b,
            &routes[i].points,
            m,
        ) {
            out.push(i);
        }
        i += 1;
    }
    out
}

/// Which routed routes a failure would displace.
pub fn ripup_targets(failed: &Route, routes: &[Route], extent: i32) -> (out: Vec<usize>)
    ensures
        out@ == displaced(failed@, views(routes@), extent as int),
{
    displaced_by(failed, routes, extent as i64)
}

/// The two ends' targets paired: every one with every other.
pub open spec fn pairings(m: nat, n: nat) -> Seq<(usize, usize)> {
    Seq::new(m * n, |k: int| ((k / (n as int)) as usize, (k % (n as int)) as usize))
}

/// A pairing comes before another: by distance, then by the source's coordinates, then by the
/// destination's.
pub open spec fn nearer(a: (Point, Point), b: (Point, Point)) -> bool {
    let da = length(pt(a.0), pt(a.1));
    let db = length(pt(b.0), pt(b.1));
    if da != db {
        da < db
    } else if a.0.0 != b.0.0 {
        a.0.0 < b.0.0
    } else if a.0.1 != b.0.1 {
        a.0.1 < b.0.1
    } else if a.1.0 != b.1.0 {
        a.1.0 < b.1.0
    } else {
        a.1.1 < b.1.1
    }
}

/// Every pairing of a source target with a destination target, in the order tried.
pub open spec fn pair_order(src: Seq<Point>, dst: Seq<Point>) -> Seq<(usize, usize)> {
    let all = pairings(src.len(), dst.len());
    let order = arranged(
        crate::lists::upto(all.len()),
        |i: usize, j: usize|
            nearer(
                (src[all[i as int].0 as int], dst[all[i as int].1 as int]),
                (src[all[j as int].0 as int], dst[all[j as int].1 as int]),
            ),
    );
    Seq::new(order.len(), |k: int| all[order[k] as int])
}

fn is_nearer(a: (Point, Point), b: (Point, Point)) -> (r: bool)
    ensures
        r == nearer(a, b),
{
    let da: i64 = distance(a.0, a.1);
    let db: i64 = distance(b.0, b.1);
    if da != db {
        da < db
    } else if a.0.0 != b.0.0 {
        a.0.0 < b.0.0
    } else if a.0.1 != b.0.1 {
        a.0.1 < b.0.1
    } else if a.1.0 != b.1.0 {
        a.1.0 < b.1.0
    } else {
        a.1.1 < b.1.1
    }
}

/// Every pairing of a source target with a destination target, in the order tried.
///
/// Sorted stably by centre-to-centre distance, then by the four coordinates. Each pair is attempted
/// in turn and the first that routes wins, so this order is the answer whenever two pairings are
/// equally long. The distance is the truncated length, so two pairings that differ by less than one
/// unit tie here and are settled by the coordinates.
pub fn target_pairs(src: &[Point], dst: &[Point]) -> (out: Vec<(usize, usize)>)
    ensures
        out@ == pair_order(src@, dst@),
        forall|k: int| 0 <= k < out.len() ==> (#[trigger] out@[k]).0 < src.len() && out@[k].1
            < dst.len(),
{
    let ghost n = dst@.len() as int;
    let mut pairs: Vec<(usize, usize)> = Vec::new();
    let mut a: usize = 0;
    while a < src.len()
        invariant
            a <= src.len(),
            n == dst@.len(),
            pairs@.len() == a * n,
            forall|k: int|
                0 <= k < pairs@.len() ==> (#[trigger] pairs@[k]).0 == k / n && pairs@[k].1 == k % n
                    && pairs@[k].0 < src.len() && pairs@[k].1 < n,
        decreases src.len() - a,
    {
        let mut b: usize = 0;
        while b < dst.len()
            invariant
                a < src.len(),
                b <= dst.len(),
                n == dst@.len(),
                pairs@.len() == a * n + b,
                forall|k: int|
                    0 <= k < pairs@.len() ==> (#[trigger] pairs@[k]).0 == k / n && pairs@[k].1 == k
                        % n && pairs@[k].0 < src.len() && pairs@[k].1 < n,
            decreases dst.len() - b,
        {
            proof {
                vstd::arithmetic::div_mod::lemma_fundamental_div_mod_converse(
                    a * n + b,
                    n,
                    a as int,
                    b as int,
                );
            }
            pairs.push((a, b));
            b += 1;
        }
        assert((a + 1) * n == a * n + n) by (nonlinear_arith);
        a += 1;
    }
    let ghost all = pairings(src@.len(), dst@.len());
    assert(pairs@ =~= all);
    let list = crate::lists::count_to(pairs.len());
    let ghost rule = |i: usize, j: usize|
        nearer(
            (src@[all[i as int].0 as int], dst@[all[i as int].1 as int]),
            (src@[all[j as int].0 as int], dst@[all[j as int].1 as int]),
        );
    let less = |i: usize, j: usize| -> (r: bool)
        requires
            i < pairs.len(),
            j < pairs.len(),
            pairs@[i as int].0 < src.len() && pairs@[i as int].1 < dst.len(),
            pairs@[j as int].0 < src.len() && pairs@[j as int].1 < dst.len(),
        ensures
            r == nearer(
                (src@[pairs@[i as int].0 as int], dst@[pairs@[i as int].1 as int]),
                (src@[pairs@[j as int].0 as int], dst@[pairs@[j as int].1 as int]),
            ),
        {
            let (p, q) = (pairs[i], pairs[j]);
            is_nearer((src[p.0], dst[p.1]), (src[q.0], dst[q.1]))
        };
    proof {
        assert forall|x: usize, y: usize| list@.contains(x) && list@.contains(y) implies
            #[trigger] less.requires((x, y)) by {
            let i = choose|i: int| 0 <= i < list@.len() && list@[i] == x;
            let j = choose|j: int| 0 <= j < list@.len() && list@[j] == y;
        }
        assert(compares(less, list@));
        assert(orders(less, rule));
    }
    let order = arrange(&list, &less);
    let mut out: Vec<(usize, usize)> = Vec::new();
    let mut k: usize = 0;
    while k < order.len()
        invariant
            k <= order.len(),
            out.len() == k,
            pairs@ == all,
            list@ == crate::lists::upto(all.len()),
            forall|y: usize| #[trigger] order@.contains(y) <==> list@.contains(y),
            forall|m: int| 0 <= m < pairs.len() ==> (#[trigger] pairs@[m]).0 < src.len()
                && pairs@[m].1 < dst.len(),
            forall|m: int| #![trigger out@[m]]
                0 <= m < k ==> out@[m] == all[order@[m] as int] && out@[m].0 < src.len()
                    && out@[m].1 < dst.len(),
        decreases order.len() - k,
    {
        proof {
            assert(order@.contains(order@[k as int]));
            let i = choose|i: int| 0 <= i < list@.len() && list@[i] == order@[k as int];
        }
        out.push(pairs[order[k]]);
        k += 1;
    }
    assert(out@ =~= pair_order(src@, dst@));
    out
}

/// Of two routes at most one goes before the other, a route with a higher priority before one with a
/// lower, and a route before none that is like it.
pub proof fn law_precedence(a: RouteView, b: RouteView)
    ensures
        before(a, b) ==> !before(b, a),
        !before(a, a),
        a.priority > b.priority ==> before(a, b),
        precedence(a, b) == Ordering::Less <==> precedence(b, a) == Ordering::Greater,
{
}

/// A route tries every destination on another instance than its own and no other, pads before bumps,
/// of two such the nearer first, and of two as near the one with the lower id.
pub proof fn law_dests_in_order(instance: Seq<char>, centre: Point, dests: Seq<Dest>, k: int, m: int)
    requires
        dests.len() <= usize::MAX,
        0 <= k < m < dest_order(instance, centre, dests).len(),
    ensures
        ({
            let order = dest_order(instance, centre, dests);
            let (a, b) = (dests[order[k] as int]@, dests[order[m] as int]@);
            &&& a.cover ==> b.cover
            &&& a.cover == b.cover ==> square_length(pt(centre), pt(a.centre)) <= square_length(
                pt(centre),
                pt(b.centre),
            )
            &&& a.cover == b.cover && square_length(pt(centre), pt(a.centre)) == square_length(
                pt(centre),
                pt(b.centre),
            ) ==> a.id <= b.id
            &&& forall|i: usize| #[trigger]
                order.contains(i) <==> i < dests.len() && dests[i as int]@.instance != instance
        }),
{
    let keep = |i: usize| dests[i as int]@.instance != instance;
    let less = |i: usize, j: usize| sooner(centre, dests[i as int]@, dests[j as int]@);
    let list = those(dests.len(), keep);
    let order = dest_order(instance, centre, dests);
    assert(order == arranged(list, less));
    assert(weak_order(less));
    law_arranged_in_order(list, less);
    law_arranged_same(list, less);
    lemma_those(dests.len(), keep);
    assert(!less(order[m], order[k]));
    assert forall|i: usize| #[trigger] order.contains(i) <==> i < dests.len()
        && dests[i as int]@.instance != instance by {
        assert(list.contains(i) <==> i < dests.len() && keep(i));
    }
}

/// What a rip-up probes goes round the destinations as the priority rises: it starts at the first, goes
/// one further with each rise, and begins again after the last.
pub proof fn law_probe_goes_round(r: RouteView, later: RouteView)
    requires
        r.dests.len() > 0,
        later.dests == r.dests,
        later.priority == r.priority + 1,
    ensures
        0 <= probed(r) < r.dests.len(),
        r.priority <= 0 ==> probed(r) == 0,
        r.priority >= 0 ==> probed(later) == if probed(r) == r.dests.len() - 1 {
            0
        } else {
            probed(r) + 1
        },
{
    let n = r.dests.len() as int;
    if r.priority >= 0 {
        let p = r.priority as int;
        vstd::arithmetic::div_mod::lemma_fundamental_div_mod(p, n);
        let (q, m) = (p / n, p % n);
        if m == n - 1 {
            assert(p + 1 == (q + 1) * n + 0) by (nonlinear_arith)
                requires
                    p == n * q + m,
                    m == n - 1,
            ;
            vstd::arithmetic::div_mod::lemma_fundamental_div_mod_converse(p + 1, n, q + 1, 0);
        } else {
            assert(p + 1 == q * n + (m + 1)) by (nonlinear_arith)
                requires
                    p == n * q + m,
            ;
            vstd::arithmetic::div_mod::lemma_fundamental_div_mod_converse(p + 1, n, q, m + 1);
        }
    }
    vstd::arithmetic::div_mod::lemma_small_mod(0, n as nat);
}

/// A route that has never been put off makes room one extent wide, and each time it is put off one
/// extent more.
pub proof fn law_margin_grows(r: RouteView, later: RouteView, extent: int)
    requires
        later.priority == r.priority + 1,
    ensures
        r.priority == 0 ==> margin(r, extent) == extent,
        margin(later, extent) == margin(r, extent) + extent,
{
    assert((r.priority + 2) * extent == (r.priority + 1) * extent + extent && (0 + 1) * extent
        == extent) by (nonlinear_arith);
}

/// A route yields once it is laid, to another of its own priority or a higher one, and to no lower one.
pub proof fn law_who_yields(r: RouteView, p: i32)
    ensures
        !r.routed ==> !yields(r, p),
        r.routed && p == r.priority ==> yields(r, p),
        p < r.priority ==> !yields(r, p),
        r.routed && p > r.priority ==> yields(r, p),
{
}

/// What is looked at next is what will have been tried, once it has been; and only when everything has
/// been is nothing left.
pub proof fn law_tried_what_was_next(r: RouteView, later: RouteView)
    requires
        later.dests == r.dests,
        later.next == r.next + 1,
    ensures
        r.next < r.dests.len() ==> later.reached() == Some(r.dests[r.next as int]) && r.peeked()
            == later.reached(),
        r.next >= r.dests.len() ==> r.peeked() is None,
        r.next == 0 && r.dests.len() > 0 ==> r.reached() == Some(r.dests[0]),
{
}

} // verus!
