//! What the runs of a path are: where they lie, and where one ends and the next begins.

use crate::geom::{max, rt, Rect};
use crate::rdl::wire::{back_from, beyond, heading, law_runs_ends, piece_box, runs_of, Run};
use vstd::prelude::*;

verus! {

/// Which way `t` lies from `s`, along each axis: up, down or not at all.
pub open spec fn way(s: (int, int), t: (int, int)) -> (int, int) {
    (
        if t.0 > s.0 {
            1
        } else if t.0 < s.0 {
            -1
        } else {
            0
        },
        if t.1 > s.1 {
            1
        } else if t.1 < s.1 {
            -1
        } else {
            0
        },
    )
}

/// `x`, moved by `m` that way along one axis.
pub open spec fn shifted(x: int, w: int, m: int) -> int {
    if w > 0 {
        x + m
    } else if w < 0 {
        x - m
    } else {
        x
    }
}

/// The point `m` steps from `a` that way.
pub open spec fn on(a: (int, int), w: (int, int), m: int) -> (int, int) {
    (shifted(a.0, w.0, m), shifted(a.1, w.1, m))
}

/// How many steps it is from `a` to `b`, at most one along each axis at a time.
pub open spec fn far(a: (int, int), b: (int, int)) -> int {
    max(
        if a.0 < b.0 {
            b.0 - a.0
        } else {
            a.0 - b.0
        },
        if a.1 < b.1 {
            b.1 - a.1
        } else {
            a.1 - b.1
        },
    )
}

/// A path along the tracks: each step goes somewhere, along an axis or aslant at half a right angle,
/// and none goes straight back.
pub open spec fn is_path(route: Seq<(int, int)>) -> bool {
    &&& route.len() >= 2
    &&& forall|k: int| #![trigger route[k]]
        1 <= k < route.len() ==> {
            let (s, t) = (route[k - 1], route[k]);
            &&& s != t
            &&& s.0 == t.0 || s.1 == t.1 || t.0 - s.0 == t.1 - s.1 || t.0 - s.0 == s.1 - t.1
        }
    &&& forall|k: int| #![trigger route[k]]
        2 <= k < route.len() ==> {
            let (u, w) = (way(route[k - 2], route[k - 1]), way(route[k - 1], route[k]));
            !(u.0 == -w.0 && u.1 == -w.1)
        }
}

/// The step from `s` to `t` lies on the run, and goes its way.
#[verifier::opaque]
pub open spec fn lies_on(s: (int, int), t: (int, int), run: Run) -> bool {
    let w = way(s, t);
    let (a, b) = run;
    &&& 0 <= far(a, s) < far(a, t) <= far(a, b)
    &&& s == on(a, w, far(a, s))
    &&& t == on(a, w, far(a, t))
    &&& b == on(a, w, far(a, b))
}

/// One of the two ways is along x and the other along y.
pub open spec fn square(u: (int, int), w: (int, int)) -> bool {
    (u.1 == 0 && w.0 == 0) || (u.0 == 0 && w.1 == 0)
}

/// At the point `p` a path that came one way goes on another: where it turns at a right angle from one
/// axis to the other, the run that arrives ends `ext` past the point and the one that leaves starts
/// `ext` before it; at any other bend both are there.
#[verifier::opaque]
pub open spec fn meet_at(
    p: (int, int),
    u: (int, int),
    w: (int, int),
    ext: int,
    arrives: Run,
    leaves: Run,
) -> bool {
    if square(u, w) {
        arrives.1 == on(p, u, ext) && leaves.0 == on(p, w, -ext)
    } else {
        arrives.1 == p && leaves.0 == p
    }
}

/// The runs follow the path, where `owner` says which run each step lies on: a new run begins where the
/// path changes its way and nowhere else.
pub open spec fn follows_path(
    route: Seq<(int, int)>,
    ext: int,
    runs: Seq<Run>,
    owner: Seq<int>,
) -> bool {
    &&& owner.len() == route.len() - 1
    &&& owner[0] == 0 && owner.last() == runs.len() - 1
    &&& runs[0].0 == route[0] && runs.last().1 == route.last()
    &&& forall|k: int| #![trigger owner[k]]
        0 <= k < owner.len() ==> 0 <= owner[k] < runs.len() && lies_on(
            route[k],
            route[k + 1],
            runs[owner[k]],
        )
    &&& forall|k: int| #![trigger owner[k]]
        1 <= k < owner.len() ==> {
            let (u, w) = (way(route[k - 1], route[k]), way(route[k], route[k + 1]));
            if u == w {
                owner[k] == owner[k - 1]
            } else {
                owner[k] == owner[k - 1] + 1 && meet_at(
                    route[k],
                    u,
                    w,
                    ext,
                    runs[owner[k - 1]],
                    runs[owner[k]],
                )
            }
        }
}

/// One more step that goes the way of the last run makes that run longer.
proof fn lemma_longer(s0: (int, int), t0: (int, int), s: (int, int), t: (int, int), run: Run)
    requires
        lies_on(s0, t0, run),
        s == run.1,
        s != t,
        s.0 == t.0 || s.1 == t.1 || t.0 - s.0 == t.1 - s.1 || t.0 - s.0 == s.1 - t.1,
        way(s, t) == way(s0, t0),
    ensures
        lies_on(s0, t0, (run.0, t)),
        lies_on(s, t, (run.0, t)),
{
    reveal(lies_on);
}

/// A run drawn out past its end still holds what it held.
proof fn lemma_drawn_out(s0: (int, int), t0: (int, int), run: Run, ext: int)
    requires
        lies_on(s0, t0, run),
        ext >= 0,
    ensures
        lies_on(s0, t0, (run.0, on(run.1, way(s0, t0), ext))),
{
    reveal(lies_on);
}

/// A run that starts before the step that it is for.
proof fn lemma_new_run(s: (int, int), t: (int, int), ext: int)
    requires
        ext >= 0,
        s != t,
        s.0 == t.0 || s.1 == t.1 || t.0 - s.0 == t.1 - s.1 || t.0 - s.0 == s.1 - t.1,
    ensures
        lies_on(s, t, (on(s, way(s, t), -ext), t)),
        on(s, way(s, t), 0) == s,
{
    reveal(lies_on);
}

/// The ways of two steps decide how a run goes on.
proof fn lemma_turn(
    r: (int, int),
    s: (int, int),
    t: (int, int),
    a: (int, int),
    ext: int,
)
    requires
        r != s,
        s != t,
        r.0 == s.0 || r.1 == s.1 || s.0 - r.0 == s.1 - r.1 || s.0 - r.0 == r.1 - s.1,
        s.0 == t.0 || s.1 == t.1 || t.0 - s.0 == t.1 - s.1 || t.0 - s.0 == s.1 - t.1,
        !(way(r, s).0 == -way(s, t).0 && way(r, s).1 == -way(s, t).1),
        lies_on(r, s, (a, s)),
    ensures
        ({
            let (u, w) = (way(r, s), way(s, t));
            let (was, now) = (heading(r, s), heading(s, t));
            &&& was == now <==> u == w
            &&& square(u, w) <==> (was == 0 && now == 1) || (was == 1 && now == 0)
            &&& was == 0 && now == 1 ==> on(s, u, ext) == (
                beyond(a.0, s.0, ext),
                s.1,
            ) && on(s, w, -ext) == (s.0, back_from(s.1, t.1, ext))
            &&& was == 1 && now == 0 ==> on(s, u, ext) == (
                s.0,
                beyond(a.1, s.1, ext),
            ) && on(s, w, -ext) == (back_from(s.0, t.0, ext), s.1)
        }),
{
    reveal(lies_on);
}

/// How one more step, from `s` to `t` after one from `r`, changes the runs.
spec fn grows(
    sofar: Seq<Run>,
    runs: Seq<Run>,
    r: (int, int),
    s: (int, int),
    t: (int, int),
    ext: int,
) -> bool {
    let last = sofar.len() - 1;
    let a = sofar[last].0;
    let (u, w) = (way(r, s), way(s, t));
    &&& sofar.len() > 0
    &&& sofar[last] == (a, s)
    &&& lies_on(r, s, sofar[last])
    &&& s != t
    &&& s.0 == t.0 || s.1 == t.1 || t.0 - s.0 == t.1 - s.1 || t.0 - s.0 == s.1 - t.1
    &&& ext >= 0
    &&& runs == if u == w {
        sofar.update(last, (a, t))
    } else if square(u, w) {
        sofar.update(last, (a, on(s, u, ext))).push((on(s, w, -ext), t))
    } else {
        sofar.push((s, t))
    }
}

proof fn lemma_still_on(
    sofar: Seq<Run>,
    runs: Seq<Run>,
    r: (int, int),
    s: (int, int),
    t: (int, int),
    ext: int,
    p: (int, int),
    q: (int, int),
    i: int,
)
    requires
        grows(sofar, runs, r, s, t, ext),
        0 <= i < sofar.len(),
        lies_on(p, q, sofar[i]),
    ensures
        i < runs.len(),
        lies_on(p, q, runs[i]),
{
    let last = sofar.len() - 1;
    if i == last {
        lemma_same_way(p, q, r, s, sofar[last]);
        if way(r, s) == way(s, t) {
            lemma_longer(p, q, s, t, sofar[last]);
        } else {
            lemma_drawn_out(p, q, sofar[last], ext);
        }
    }
}

proof fn lemma_last_on(
    sofar: Seq<Run>,
    runs: Seq<Run>,
    r: (int, int),
    s: (int, int),
    t: (int, int),
    ext: int,
)
    requires
        grows(sofar, runs, r, s, t, ext),
    ensures
        lies_on(s, t, runs.last()),
        way(r, s) != way(s, t) ==> meet_at(
            s,
            way(r, s),
            way(s, t),
            ext,
            runs[sofar.len() - 1],
            runs.last(),
        ),
{
    reveal(meet_at);
    if way(r, s) == way(s, t) {
        lemma_longer(r, s, s, t, sofar.last());
    } else {
        lemma_new_run(s, t, ext);
        lemma_new_run(s, t, 0);
    }
}

proof fn lemma_still_meet(
    sofar: Seq<Run>,
    runs: Seq<Run>,
    r: (int, int),
    s: (int, int),
    t: (int, int),
    ext: int,
    p: (int, int),
    u: (int, int),
    w: (int, int),
    i: int,
)
    requires
        grows(sofar, runs, r, s, t, ext),
        1 <= i < sofar.len(),
        meet_at(p, u, w, ext, sofar[i - 1], sofar[i]),
    ensures
        meet_at(p, u, w, ext, runs[i - 1], runs[i]),
{
    reveal(meet_at);
    assert(runs[i - 1] == sofar[i - 1]);
    assert(runs[i].0 == sofar[i].0);
}

/// A path without its last step is a path.
proof fn lemma_path_head(route: Seq<(int, int)>)
    requires
        is_path(route),
        route.len() > 2,
    ensures
        is_path(route.drop_last()),
{
    let head = route.drop_last();
    assert forall|k: int| #![trigger head[k]] 1 <= k < head.len() implies {
        let (s, t) = (head[k - 1], head[k]);
        &&& s != t
        &&& s.0 == t.0 || s.1 == t.1 || t.0 - s.0 == t.1 - s.1 || t.0 - s.0 == s.1 - t.1
    } by {
        assert(head[k] == route[k] && head[k - 1] == route[k - 1]);
    }
    assert forall|k: int| #![trigger head[k]] 2 <= k < head.len() implies {
        let (u, w) = (way(head[k - 2], head[k - 1]), way(head[k - 1], head[k]));
        !(u.0 == -w.0 && u.1 == -w.1)
    } by {
        assert(head[k] == route[k] && head[k - 1] == route[k - 1] && head[k - 2] == route[k - 2]);
    }
}

/// The runs of a path that is one step longer.
proof fn lemma_grown(route: Seq<(int, int)>, ext: int)
    requires
        is_path(route),
        route.len() > 2,
        ext >= 0,
        lies_on(
            route[route.len() - 3],
            route[route.len() - 2],
            runs_of(route.drop_last(), ext).last(),
        ),
    ensures
        grows(
            runs_of(route.drop_last(), ext),
            runs_of(route, ext),
            route[route.len() - 3],
            route[route.len() - 2],
            route[route.len() - 1],
            ext,
        ),
{
    let n = route.len() as int;
    let sofar = runs_of(route.drop_last(), ext);
    let runs = runs_of(route, ext);
    law_runs_ends(route.drop_last(), ext);
    let (r, s, t) = (route[n - 3], route[n - 2], route[n - 1]);
    let last = sofar.len() - 1;
    let a = sofar[last].0;
    assert(sofar[last] == (a, s));
    assert(route[n - 1] == t && route[n - 2] == s);
    lemma_turn(r, s, t, a, ext);
    let (u, w) = (way(r, s), way(s, t));
    if u == w {
        assert(runs =~= sofar.update(last, (a, t)));
    } else if square(u, w) {
        assert(runs =~= sofar.update(last, (a, on(s, u, ext))).push((on(s, w, -ext), t)));
    } else {
        assert(runs =~= sofar.push((s, t)));
    }
}

proof fn lemma_follows_on(
    route: Seq<(int, int)>,
    ext: int,
    sofar: Seq<Run>,
    runs: Seq<Run>,
    before: Seq<int>,
) -> (owner: Seq<int>)
    requires
        route.len() > 2,
        follows_path(route.drop_last(), ext, sofar, before),
        grows(
            sofar,
            runs,
            route[route.len() - 3],
            route[route.len() - 2],
            route[route.len() - 1],
            ext,
        ),
        runs.last().1 == route.last(),
    ensures
        follows_path(route, ext, runs, owner),
{
    let n = route.len() as int;
    let head = route.drop_last();
    let (r, s, t) = (route[n - 3], route[n - 2], route[n - 1]);
    let last = sofar.len() - 1;
    let owner = if way(r, s) == way(s, t) {
        before.push(last)
    } else {
        before.push(last + 1)
    };
    lemma_last_on(sofar, runs, r, s, t, ext);
    assert(before[n - 3] == last);
    assert forall|k: int| #![trigger owner[k]] 0 <= k < owner.len() implies 0 <= owner[k]
        < runs.len() && lies_on(route[k], route[k + 1], runs[owner[k]]) by {
        if k < before.len() {
            assert(owner[k] == before[k]);
            assert(head[k] == route[k] && head[k + 1] == route[k + 1]);
            lemma_still_on(sofar, runs, r, s, t, ext, route[k], route[k + 1], before[k]);
        } else {
            lemma_last_on(sofar, runs, r, s, t, ext);
        }
    }
    assert forall|k: int| #![trigger owner[k]] 1 <= k < owner.len() implies ({
        let (u, w) = (way(route[k - 1], route[k]), way(route[k], route[k + 1]));
        if u == w {
            owner[k] == owner[k - 1]
        } else {
            owner[k] == owner[k - 1] + 1 && meet_at(
                route[k],
                u,
                w,
                ext,
                runs[owner[k - 1]],
                runs[owner[k]],
            )
        }
    }) by {
        assert(owner[k - 1] == before[k - 1]);
        assert(0 <= before[k - 1] < sofar.len());
        if k < before.len() {
            assert(owner[k] == before[k]);
            assert(head[k - 1] == route[k - 1] && head[k] == route[k] && head[k + 1]
                == route[k + 1]);
            assert(0 <= before[k] < sofar.len());
            if before[k] == before[k - 1] + 1 {
                lemma_still_meet(
                    sofar,
                    runs,
                    r,
                    s,
                    t,
                    ext,
                    route[k],
                    way(route[k - 1], route[k]),
                    way(route[k], route[k + 1]),
                    before[k],
                );
            }
        }
    }
    assert(owner[0] == before[0]);
    assert(runs[0].0 == sofar[0].0);
    assert(head[0] == route[0]);
    owner
}

proof fn lemma_follows(route: Seq<(int, int)>, ext: int) -> (owner: Seq<int>)
    requires
        is_path(route),
        ext >= 0,
    ensures
        follows_path(route, ext, runs_of(route, ext), owner),
    decreases route.len(),
{
    let runs = runs_of(route, ext);
    let n = route.len() as int;
    law_runs_ends(route, ext);
    if n == 2 {
        let owner = seq![0int];
        assert(route[1] != route[0]);
        lemma_new_run(route[0], route[1], 0);
        assert(runs =~= seq![(route[0], route[1])]);
        owner
    } else {
        let head = route.drop_last();
        lemma_path_head(route);
        let before = lemma_follows(head, ext);
        let sofar = runs_of(head, ext);
        assert(before[n - 3] == sofar.len() - 1);
        assert(head[n - 3] == route[n - 3] && head[n - 2] == route[n - 2]);
        assert(lies_on(head[n - 3], head[n - 3 + 1], sofar[before[n - 3]]));
        lemma_grown(route, ext);
        lemma_follows_on(route, ext, sofar, runs, before)
    }
}

/// Two steps on one run go the same way.
proof fn lemma_same_way(
    s0: (int, int),
    t0: (int, int),
    s: (int, int),
    t: (int, int),
    run: Run,
)
    requires
        lies_on(s0, t0, run),
        lies_on(s, t, run),
    ensures
        way(s0, t0) == way(s, t),
{
    reveal(lies_on);
}

/// The runs of a path follow it. Every step of the path lies on a run that goes its way, so a run is
/// slanted only where the steps it stands for are; there is one run for each stretch of steps that go
/// the same way, in the order of the path; and where two runs meet at a right angle, from level to
/// upright as well as the other way, each reaches `ext` past the corner. The first starts where the
/// path does, and the last ends where it does.
pub proof fn law_runs_follow_the_path(route: Seq<(int, int)>, ext: int)
    requires
        is_path(route),
        ext >= 0,
    ensures
        exists|owner: Seq<int>| #[trigger] follows_path(route, ext, runs_of(route, ext), owner),
{
    let owner = lemma_follows(route, ext);
    assert(follows_path(route, ext, runs_of(route, ext), owner));
}

/// The rectangle `a` holds all of `b`.
pub open spec fn covers(a: (int, int, int, int), b: (int, int, int, int)) -> bool {
    a.0 <= b.0 && a.1 <= b.1 && a.2 >= b.2 && a.3 >= b.3
}

/// The rectangle of a straight run is the run widened by `h` to either side and no longer than it,
/// unless it is the first or the last and wider across than the pad it serves: then it reaches over
/// all of that pad, and no further than the two together.
pub proof fn law_straight_piece(runs: Seq<Run>, i: int, h: int, source: Rect, target: Rect)
    requires
        0 <= i < runs.len(),
        h >= 0,
        runs[i].0.0 == runs[i].1.0 || runs[i].0.1 == runs[i].1.1,
        runs[i].0 != runs[i].1,
        source.0 <= source.2 && source.1 <= source.3,
        target.0 <= target.2 && target.1 <= target.3,
    ensures
        ({
            let (s, t) = runs[i];
            let level = s.1 == t.1;
            let (low, high) = if level {
                ((if s.0 < t.0 { s.0 } else { t.0 }, s.1 - h), (if s.0 < t.0 { t.0 } else { s.0 }, s.1 + h))
            } else {
                ((s.0 - h, if s.1 < t.1 { s.1 } else { t.1 }), (s.0 + h, if s.1 < t.1 { t.1 } else { s.1 }))
            };
            let bare = (low.0, low.1, high.0, high.1);
            let b = piece_box(runs, i, h, source, target);
            let (from, to) = (i == 0, i == runs.len() - 1);
            let over_source = from && 2 * h > if level {
                source.3 - source.1
            } else {
                source.2 - source.0
            };
            let over_target = to && 2 * h > if level {
                target.3 - target.1
            } else {
                target.2 - target.0
            };
            &&& covers(b, bare)
            &&& !over_source && !over_target ==> b == bare
            &&& over_source ==> covers(b, rt(source))
            &&& over_target ==> covers(b, rt(target))
            &&& !(from && to) ==> forall|hull: (int, int, int, int)|
                covers(hull, bare) && (over_source ==> covers(hull, rt(source))) && (over_target
                    ==> covers(hull, rt(target))) ==> #[trigger] covers(hull, b)
            &&& forall|hull: (int, int, int, int)|
                covers(hull, bare) && (from ==> covers(hull, rt(source))) && (to ==> covers(
                    hull,
                    rt(target),
                )) ==> #[trigger] covers(hull, b)
        }),
{
}

} // verus!
