//! Which terminals committed routes have already connected.

use crate::rdl::route::{views, Route, RouteView};
use vstd::prelude::*;

verus! {

/// Two terminals that a route joins, from one to the other.
pub type Pair = (Seq<char>, Seq<char>);

/// The pairs as text.
pub open spec fn pair_views(pairs: Seq<(String, String)>) -> Seq<Pair> {
    Seq::new(pairs.len(), |i: int| (pairs[i].0@, pairs[i].1@))
}

/// The two terminals of each route that committed a path, both ways.
pub open spec fn pairs_of(routes: Seq<RouteView>) -> Seq<Pair>
    decreases routes.len(),
{
    if routes.len() == 0 {
        Seq::empty()
    } else {
        let rest = pairs_of(routes.drop_last());
        let r = routes.last();
        match r.reached() {
            Some(d) if r.laid() => rest.push((r.source, d.terminal)).push((d.terminal, r.source)),
            _ => rest,
        }
    }
}

/// `path` leads from `a` to `b`, one pair at a time.
pub open spec fn chain(pairs: Seq<Pair>, a: Seq<char>, b: Seq<char>, path: Seq<Seq<char>>) -> bool {
    &&& path.len() > 0 && path[0] == a && path.last() == b
    &&& forall|k: int|
        1 <= k < path.len() ==> pairs.contains((path[k - 1], #[trigger] path[k]))
}

/// The terminals are connected, through any chain of pairs.
pub open spec fn connected(pairs: Seq<Pair>, a: Seq<char>, b: Seq<char>) -> bool {
    exists|path: Seq<Seq<char>>| chain(pairs, a, b, path)
}

/// One more pair at the end of a chain.
proof fn lemma_extend(pairs: Seq<Pair>, a: Seq<char>, b: Seq<char>, c: Seq<char>)
    requires
        connected(pairs, a, b),
        pairs.contains((b, c)),
    ensures
        connected(pairs, a, c),
{
    let path = choose|path: Seq<Seq<char>>| chain(pairs, a, b, path);
    let more = path.push(c);
    assert forall|k: int| 1 <= k < more.len() implies pairs.contains(
        (more[k - 1], #[trigger] more[k]),
    ) by {
        if k < path.len() {
            assert(pairs.contains((path[k - 1], path[k])));
        }
    }
    assert(chain(pairs, a, c, more));
}

/// What is connected to what is connected is connected.
pub proof fn law_connected_through(pairs: Seq<Pair>, a: Seq<char>, b: Seq<char>, c: Seq<char>)
    requires
        connected(pairs, a, b),
        connected(pairs, b, c),
    ensures
        connected(pairs, a, c),
{
    let path = choose|path: Seq<Seq<char>>| chain(pairs, b, c, path);
    lemma_through(pairs, a, b, c, path);
}

proof fn lemma_through(
    pairs: Seq<Pair>,
    a: Seq<char>,
    b: Seq<char>,
    c: Seq<char>,
    path: Seq<Seq<char>>,
)
    requires
        connected(pairs, a, b),
        chain(pairs, b, c, path),
    ensures
        connected(pairs, a, c),
    decreases path.len(),
{
    if path.len() > 1 {
        let head = path.drop_last();
        let n = path.len() - 1;
        assert(pairs.contains((path[n - 1], path[n])));
        assert forall|k: int| 1 <= k < head.len() implies pairs.contains(
            (head[k - 1], #[trigger] head[k]),
        ) by {
            assert(pairs.contains((path[k - 1], path[k])));
        }
        lemma_through(pairs, a, b, path[n - 1], head);
        lemma_extend(pairs, a, path[n - 1], c);
    }
}

/// Pairs are listed both ways.
proof fn lemma_both_ways(routes: Seq<RouteView>, x: Seq<char>, y: Seq<char>)
    requires
        pairs_of(routes).contains((x, y)),
    ensures
        pairs_of(routes).contains((y, x)),
    decreases routes.len(),
{
    if routes.len() > 0 {
        let rest = pairs_of(routes.drop_last());
        let r = routes.last();
        if let Some(d) = r.reached() {
            if r.laid() {
                let one = rest.push((r.source, d.terminal));
                crate::lists::lemma_push_contains(rest, (r.source, d.terminal), (x, y));
                crate::lists::lemma_push_contains(one, (d.terminal, r.source), (x, y));
                crate::lists::lemma_push_contains(rest, (r.source, d.terminal), (y, x));
                crate::lists::lemma_push_contains(one, (d.terminal, r.source), (y, x));
            }
        }
        if rest.contains((x, y)) {
            lemma_both_ways(routes.drop_last(), x, y);
        }
    }
}

/// Nothing is connected but through the pairs: a terminal is connected to itself, the two of a pair are, and
/// whatever holds of a terminal and goes over from the first of a pair to the second holds of all
/// that it is connected to.
pub proof fn law_connected_by_pairs_alone(
    pairs: Seq<Pair>,
    a: Seq<char>,
    b: Seq<char>,
    holds: spec_fn(Seq<char>) -> bool,
)
    ensures
        connected(pairs, a, a),
        pairs.contains((a, b)) ==> connected(pairs, a, b),
        connected(pairs, a, b) && holds(a) && (forall|k: int|
            0 <= k < pairs.len() && holds((#[trigger] pairs[k]).0) ==> holds(pairs[k].1)) ==> holds(b),
{
    assert(chain(pairs, a, a, seq![a]));
    if pairs.contains((a, b)) {
        lemma_extend(pairs, a, a, b);
    }
    if connected(pairs, a, b) && holds(a) && (forall|k: int|
        0 <= k < pairs.len() && holds((#[trigger] pairs[k]).0) ==> holds(pairs[k].1)) {
        let path = choose|path: Seq<Seq<char>>| chain(pairs, a, b, path);
        lemma_holds_along(pairs, path, holds, path.len() - 1);
    }
}

proof fn lemma_holds_along(
    pairs: Seq<Pair>,
    path: Seq<Seq<char>>,
    holds: spec_fn(Seq<char>) -> bool,
    k: int,
)
    requires
        0 <= k < path.len(),
        holds(path[0]),
        forall|k: int| 1 <= k < path.len() ==> pairs.contains((path[k - 1], #[trigger] path[k])),
        forall|k: int|
            0 <= k < pairs.len() && holds((#[trigger] pairs[k]).0) ==> holds(pairs[k].1),
    ensures
        holds(path[k]),
    decreases k,
{
    if k > 0 {
        lemma_holds_along(pairs, path, holds, k - 1);
        assert(pairs.contains((path[k - 1], path[k])));
        let i = choose|i: int| 0 <= i < pairs.len() && pairs[i] == (path[k - 1], path[k]);
        assert(holds(pairs[i].0));
    }
}

/// Being connected by committed routes goes both ways.
pub proof fn law_connected_back(routes: Seq<RouteView>, a: Seq<char>, b: Seq<char>)
    requires
        connected(pairs_of(routes), a, b),
    ensures
        connected(pairs_of(routes), b, a),
{
    let pairs = pairs_of(routes);
    let path = choose|path: Seq<Seq<char>>| chain(pairs, a, b, path);
    let back = path.reverse();
    let n = path.len() - 1;
    assert forall|k: int| 1 <= k < back.len() implies pairs.contains(
        (back[k - 1], #[trigger] back[k]),
    ) by {
        assert(back[k] == path[n - k]);
        assert(back[k - 1] == path[n - k + 1]);
        assert(pairs.contains((path[n - k + 1 - 1], path[n - k + 1])));
        lemma_both_ways(routes, path[n - k], path[n - k + 1]);
    }
    assert(chain(pairs, b, a, back));
}

/// The two terminals of each route that committed a path, both ways.
///
/// Only routes that actually committed a path contribute: a locked route is not among them.
pub fn routed_pairs(routes: &[Route]) -> (pairs: Vec<(String, String)>)
    ensures
        pair_views(pairs@) == pairs_of(views(routes@)),
{
    let ghost all = views(routes@);
    let mut pairs: Vec<(String, String)> = Vec::new();
    let mut i: usize = 0;
    assert(pair_views(pairs@) =~= pairs_of(all.take(0)));
    while i < routes.len()
        invariant
            i <= routes.len(),
            all == views(routes@),
            pair_views(pairs@) == pairs_of(all.take(i as int)),
        decreases routes.len() - i,
    {
        let r = &routes[i];
        assert(all[i as int] == r@);
        assert(all.take(i + 1).drop_last() =~= all.take(i as int));
        let ghost before = pair_views(pairs@);
        if r.routed && r.points.len() > 1 {
            if let Some(d) = r.tried() {
                pairs.push((r.source.clone(), d.terminal.clone()));
                pairs.push((d.terminal.clone(), r.source.clone()));
                assert(pair_views(pairs@) =~= before.push((r.source@, d.terminal@)).push(
                    (d.terminal@, r.source@),
                ));
            }
        }
        i += 1;
    }
    assert(all.take(all.len() as int) =~= all);
    pairs
}

/// How many marks are not set.
spec fn unset(marks: Seq<bool>) -> nat
    decreases marks.len(),
{
    if marks.len() == 0 {
        0
    } else {
        unset(marks.drop_last()) + if marks.last() { 0nat } else { 1 }
    }
}

proof fn lemma_unset(marks: Seq<bool>, k: int)
    requires
        0 <= k < marks.len(),
        !marks[k],
    ensures
        unset(marks.update(k, true)) == unset(marks) - 1,
    decreases marks.len(),
{
    if k == marks.len() - 1 {
        assert(marks.update(k, true).drop_last() =~= marks.drop_last());
    } else {
        assert(marks.update(k, true).drop_last() =~= marks.drop_last().update(k, true));
        lemma_unset(marks.drop_last(), k);
    }
}

/// The terminals found so far: the source, and the far end of every marked pair.
spec fn found(source: Seq<char>, pairs: Seq<Pair>, marks: Seq<bool>, t: Seq<char>) -> bool {
    t == source || exists|k: int| 0 <= k < pairs.len() && #[trigger] marks[k] && pairs[k].1 == t
}

/// Every pair that starts at `t` is marked.
spec fn followed(pairs: Seq<Pair>, marks: Seq<bool>, t: Seq<char>) -> bool {
    forall|k: int| 0 <= k < pairs.len() && (#[trigger] pairs[k]).0 == t ==> marks[k]
}

/// No mark is taken back.
spec fn kept(a: Seq<bool>, b: Seq<bool>) -> bool {
    a.len() == b.len() && forall|k: int| 0 <= k < a.len() && a[k] ==> #[trigger] b[k]
}

/// What has been done: marked pairs lead to connected terminals, none of them the destination, and
/// each is on the list, whose first `h` entries have been followed.
spec fn progress(
    source: Seq<char>,
    dest: Seq<char>,
    pairs: Seq<Pair>,
    marks: Seq<bool>,
    list: Seq<usize>,
    h: int,
) -> bool {
    &&& marks.len() == pairs.len()
    &&& 0 <= h <= list.len()
    &&& forall|k: int|
        0 <= k < pairs.len() && #[trigger] marks[k] ==> connected(pairs, source, pairs[k].1)
            && pairs[k].1 != dest && list.contains(k as usize)
    &&& forall|j: int| 0 <= j < list.len() ==> (#[trigger] list[j]) < pairs.len() && marks[list[j] as int]
    &&& forall|j: int| 0 <= j < h ==> followed(pairs, marks, pairs[(#[trigger] list[j]) as int].1)
}

/// Mark every pair that starts at `from`; whether one of them ends at `dest`.
fn follow(
    pairs: &Vec<(String, String)>,
    from: &str,
    dest: &str,
    marks: &mut Vec<bool>,
    list: &mut Vec<usize>,
    Ghost(source): Ghost<Seq<char>>,
    Ghost(h): Ghost<int>,
) -> (hit: bool)
    requires
        connected(pair_views(pairs@), source, from@),
        progress(source, dest@, pair_views(pairs@), old(marks)@, old(list)@, h),
    ensures
        hit ==> connected(pair_views(pairs@), source, dest@),
        !hit ==> {
            &&& progress(source, dest@, pair_views(pairs@), final(marks)@, final(list)@, h)
            &&& followed(pair_views(pairs@), final(marks)@, from@)
            &&& old(list)@.is_prefix_of(final(list)@)
            &&& kept(old(marks)@, final(marks)@)
            &&& unset(final(marks)@) < unset(old(marks)@) || (final(list)@ == old(list)@
                && final(marks)@ == old(marks)@)
        },
{
    let ghost all = pair_views(pairs@);
    let mut k: usize = 0;
    while k < pairs.len()
        invariant
            k <= pairs.len(),
            all == pair_views(pairs@),
            connected(all, source, from@),
            progress(source, dest@, all, marks@, list@, h),
            old(list)@.is_prefix_of(list@),
            kept(old(marks)@, marks@),
            unset(marks@) < unset(old(marks)@) || (list@ == old(list)@ && marks@ == old(marks)@),
            forall|j: int| 0 <= j < k && (#[trigger] all[j]).0 == from@ ==> marks@[j],
        decreases pairs.len() - k,
    {
        assert(all[k as int] == (pairs@[k as int].0@, pairs@[k as int].1@));
        if !marks[k] && *pairs[k].0.as_str() == *from {
            proof {
                assert(all.contains(all[k as int]));
                lemma_extend(all, source, from@, all[k as int].1);
            }
            if *pairs[k].1.as_str() == *dest {
                return true;
            }
            let ghost before = marks@;
            let ghost listed = list@;
            proof {
                lemma_unset(marks@, k as int);
            }
            marks.set(k, true);
            list.push(k);
            proof {
                assert forall|j: int| 0 <= j < all.len() && #[trigger] marks@[j] implies connected(
                    all,
                    source,
                    all[j].1,
                ) && all[j].1 != dest@ && list@.contains(j as usize) by {
                    crate::lists::lemma_push_contains(listed, k, j as usize);
                    if j != k {
                        assert(before[j]);
                    }
                }
                assert forall|j: int| 0 <= j < h implies followed(
                    all,
                    marks@,
                    all[(#[trigger] list@[j]) as int].1,
                ) by {
                    assert(list@[j] == listed[j]);
                    assert(followed(all, before, all[listed[j] as int].1));
                }
            }
        }
        k += 1;
    }
    false
}

/// Every terminal is connected to itself.
proof fn lemma_self(pairs: Seq<Pair>, t: Seq<char>)
    ensures
        connected(pairs, t, t),
{
    assert(chain(pairs, t, t, seq![t]));
}

/// Are these two terminals already connected, through any chain of committed routes?
///
/// A transitive search, not a pair lookup.
pub fn is_routed(pairs: &Vec<(String, String)>, source: &str, dest: &str) -> (b: bool)
    ensures
        b == connected(pair_views(pairs@), source@, dest@),
{
    let ghost all = pair_views(pairs@);
    proof {
        lemma_self(all, source@);
    }
    if *source == *dest {
        return true;
    }
    let mut marks: Vec<bool> = Vec::new();
    let mut i: usize = 0;
    while i < pairs.len()
        invariant
            i <= pairs.len(),
            marks.len() == i,
            forall|k: int| 0 <= k < i ==> !#[trigger] marks@[k],
        decreases pairs.len() - i,
    {
        marks.push(false);
        i += 1;
    }
    let mut list: Vec<usize> = Vec::new();
    if follow(pairs, source, dest, &mut marks, &mut list, Ghost(source@), Ghost(0)) {
        return true;
    }
    let mut h: usize = 0;
    while h < list.len()
        invariant
            all == pair_views(pairs@),
            progress(source@, dest@, all, marks@, list@, h as int),
            followed(all, marks@, source@),
        decreases unset(marks@), list.len() - h,
    {
        let k: usize = list[h];
        assert(list@[h as int] == k);
        let ghost before = marks@;
        let ghost listed = list@;
        assert(marks@[k as int]);
        assert(all[k as int].1 == pairs@[k as int].1@);
        if follow(
            pairs,
            pairs[k].1.as_str(),
            dest,
            &mut marks,
            &mut list,
            Ghost(source@),
            Ghost(h as int),
        ) {
            return true;
        }
        assert(list@[h as int] == k);
        assert forall|j: int| 0 <= j < h + 1 implies followed(
            all,
            marks@,
            all[(#[trigger] list@[j]) as int].1,
        ) by {}
        assert forall|j: int| 0 <= j < all.len() && (#[trigger] all[j]).0 == source@ implies
            marks@[j] by {
            assert(before[j]);
        }
        h += 1;
    }
    proof {
        assert(pairs.len() == pairs@.len());
        lemma_not_connected(source@, dest@, all, marks@, list@);
    }
    false
}

proof fn lemma_not_connected(
    source: Seq<char>,
    dest: Seq<char>,
    pairs: Seq<Pair>,
    marks: Seq<bool>,
    list: Seq<usize>,
)
    requires
        progress(source, dest, pairs, marks, list, list.len() as int),
        followed(pairs, marks, source),
        source != dest,
        pairs.len() <= usize::MAX,
    ensures
        !connected(pairs, source, dest),
{
    if connected(pairs, source, dest) {
        let path = choose|path: Seq<Seq<char>>| chain(pairs, source, dest, path);
        lemma_all_found(source, dest, pairs, marks, list, path, path.len() - 1);
    }
}

/// Once every listed pair has been followed, every connected terminal has been found.
proof fn lemma_all_found(
    source: Seq<char>,
    dest: Seq<char>,
    pairs: Seq<Pair>,
    marks: Seq<bool>,
    list: Seq<usize>,
    path: Seq<Seq<char>>,
    k: int,
)
    requires
        progress(source, dest, pairs, marks, list, list.len() as int),
        followed(pairs, marks, source),
        chain(pairs, source, dest, path),
        source != dest,
        pairs.len() <= usize::MAX,
        0 <= k < path.len(),
    ensures
        found(source, pairs, marks, path[k]),
        path[k] != dest,
    decreases k,
{
    if k > 0 {
        lemma_all_found(source, dest, pairs, marks, list, path, k - 1);
        let t = path[k - 1];
        assert(pairs.contains((path[k - 1], path[k])));
        let j = choose|j: int| 0 <= j < pairs.len() && pairs[j] == (path[k - 1], path[k]);
        if t != source {
            let m = choose|m: int| 0 <= m < pairs.len() && #[trigger] marks[m] && pairs[m].1 == t;
            assert(list.contains(m as usize));
            let i = choose|i: int| 0 <= i < list.len() && list[i] == m as usize;
            assert(followed(pairs, marks, pairs[list[i] as int].1));
        }
        assert(pairs[j].0 == t);
        assert(marks[j]);
    }
}

} // verus!
