//! The track grid, its edges, and what an edge costs.

use crate::geom::{half, Point};
use vstd::prelude::*;

verus! {

/// The thinned track grid the router searches over.
#[derive(Debug, Clone, PartialEq, Eq)]
pub struct Grid {
    pub x: Vec<i32>,
    pub y: Vec<i32>,
}

/// The tracks that are kept: the first at or beyond `start`, and after it each that clears the
/// last one kept by more than `pitch`.
pub open spec fn thinned(tracks: Seq<i32>, start: int, pitch: int) -> Seq<i32>
    decreases tracks.len(),
{
    if tracks.len() == 0 {
        Seq::empty()
    } else {
        let kept = thinned(tracks.drop_last(), start, pitch);
        let t = tracks.last();
        let keep = if kept.len() == 0 {
            t >= start
        } else {
            kept.last() + pitch < t
        };
        if keep {
            kept.push(t)
        } else {
            kept
        }
    }
}

/// The crossings of the tracks, x outer and y inner.
pub open spec fn crossings(x: Seq<i32>, y: Seq<i32>) -> Seq<Point> {
    Seq::new(
        x.len() * y.len(),
        |k: int| (x[k / (y.len() as int)], y[k % (y.len() as int)]),
    )
}

impl Grid {
    /// How many crossings the grid has.
    pub fn vertices(&self) -> (n: usize)
        requires
            self.x.len() * self.y.len() <= usize::MAX,
        ensures
            n == self.x.len() * self.y.len(),
            n == crossings(self.x@, self.y@).len(),
    {
        self.x.len() * self.y.len()
    }

    /// Grid points, x outer, y inner.
    pub fn points(&self) -> (out: Vec<Point>)
        ensures
            out@ == crossings(self.x@, self.y@),
    {
        let mut out: Vec<Point> = Vec::new();
        let ghost ny = self.y@.len() as int;
        let mut i: usize = 0;
        while i < self.x.len()
            invariant
                i <= self.x.len(),
                ny == self.y@.len(),
                out@.len() == i * ny,
                forall|k: int|
                    0 <= k < out@.len() ==> out@[k] == (self.x@[k / ny], self.y@[k % ny]),
            decreases self.x.len() - i,
        {
            let mut j: usize = 0;
            while j < self.y.len()
                invariant
                    i < self.x.len(),
                    j <= self.y.len(),
                    ny == self.y@.len(),
                    out@.len() == i * ny + j,
                    forall|k: int|
                        0 <= k < out@.len() ==> out@[k] == (self.x@[k / ny], self.y@[k % ny]),
                decreases self.y.len() - j,
            {
                proof {
                    vstd::arithmetic::div_mod::lemma_fundamental_div_mod_converse(
                        i * ny + j,
                        ny,
                        i as int,
                        j as int,
                    );
                }
                out.push((self.x[i], self.y[j]));
                j += 1;
            }
            assert((i + 1) * ny == i * ny + ny) by (nonlinear_arith);
            i += 1;
        }
        assert(out@ =~= crossings(self.x@, self.y@));
        out
    }
}

/// Thin one axis of a track grid so wires cannot crowd.
///
/// The first track kept is the first at or beyond `width / 2 + 1`, leaving room for half a wire
/// against the edge. After that a track is kept only once it clears the previous one by more than
/// `width + spacing - 1`.
///
/// The comparison is strict and the pitch carries a `- 1`, so a track exactly one pitch away is
/// kept. Writing it as `>=` on a full `width + spacing` would drop every other track on a grid
/// whose pitch happens to match, and halve the routing resource without any error.
pub fn thin(tracks: &[i32], width: i32, spacing: i32) -> (out: Vec<i32>)
    ensures
        out@ == thinned(tracks@, half(width as int) + 1, width + spacing - 1),
{
    let pitch: i64 = width as i64 + spacing as i64 - 1;
    let start: i64 = crate::geom::halve(width as i64) + 1;
    let mut out: Vec<i32> = Vec::new();
    let mut i: usize = 0;
    assert(tracks@.take(0) =~= Seq::<i32>::empty());
    while i < tracks.len()
        invariant
            i <= tracks.len(),
            pitch == width + spacing - 1,
            start == half(width as int) + 1,
            out@ == thinned(tracks@.take(i as int), start as int, pitch as int),
        decreases tracks.len() - i,
    {
        let t: i32 = tracks[i];
        assert(tracks@.take(i + 1).drop_last() =~= tracks@.take(i as int));
        let keep = if out.len() == 0 {
            t as i64 >= start
        } else {
            out[out.len() - 1] as i64 + pitch < t as i64
        };
        if keep {
            out.push(t);
        }
        i += 1;
    }
    assert(tracks@.take(tracks@.len() as int) =~= tracks@);
    out
}

/// The whole grid: both axes thinned.
pub fn grid(track_x: &[i32], track_y: &[i32], width: i32, spacing: i32) -> (g: Grid)
    ensures
        g.x@ == thinned(track_x@, half(width as int) + 1, width + spacing - 1),
        g.y@ == thinned(track_y@, half(width as int) + 1, width + spacing - 1),
{
    Grid { x: thin(track_x, width, spacing), y: thin(track_y, width, spacing) }
}

/// Kept tracks start clear of the edge and stand a full width and spacing apart, however many lie
/// between them.
pub proof fn law_thinned_apart(tracks: Seq<i32>, width: int, spacing: int, i: int, j: int)
    requires
        width + spacing >= 1,
        0 <= i < j < thinned(tracks, half(width) + 1, width + spacing - 1).len(),
    ensures
        ({
            let kept = thinned(tracks, half(width) + 1, width + spacing - 1);
            kept[i] + width + spacing <= kept[j] && kept[0] >= half(width) + 1
        }),
    decreases tracks.len(), j,
{
    let start = half(width) + 1;
    let pitch = width + spacing - 1;
    let kept = thinned(tracks, start, pitch);
    let before = thinned(tracks.drop_last(), start, pitch);
    if kept.len() == before.len() {
        law_thinned_apart(tracks.drop_last(), width, spacing, i, j);
    } else if j < before.len() {
        law_thinned_apart(tracks.drop_last(), width, spacing, i, j);
    } else {
        assert(before.last() + pitch < kept.last());
        if i < before.len() - 1 {
            law_thinned_apart(tracks.drop_last(), width, spacing, i, before.len() - 1);
        }
        lemma_thinned_start(tracks, start, pitch);
    }
}

proof fn lemma_thinned_start(tracks: Seq<i32>, start: int, pitch: int)
    ensures
        thinned(tracks, start, pitch).len() > 0 ==> thinned(tracks, start, pitch)[0] >= start,
    decreases tracks.len(),
{
    if tracks.len() > 0 {
        lemma_thinned_start(tracks.drop_last(), start, pitch);
    }
}

/// A track is dropped only where it lies short of the start or no more than a pitch beyond a track
/// that was kept.
pub proof fn law_thinned_dense(tracks: Seq<i32>, start: int, pitch: int, i: int)
    requires
        0 <= i < tracks.len(),
    ensures
        ({
            let kept = thinned(tracks, start, pitch);
            ||| kept.contains(tracks[i])
            ||| tracks[i] < start
            ||| exists|k: int| 0 <= k < kept.len() && tracks[i] <= #[trigger] kept[k] + pitch
        }),
    decreases tracks.len(),
{
    let kept = thinned(tracks, start, pitch);
    let before = thinned(tracks.drop_last(), start, pitch);
    if i < tracks.len() - 1 {
        law_thinned_dense(tracks.drop_last(), start, pitch, i);
        assert(tracks.drop_last()[i] == tracks[i]);
        assert(forall|k: int| 0 <= k < before.len() ==> before[k] == kept[k]);
        if before.contains(tracks[i]) {
            let k = choose|k: int| 0 <= k < before.len() && before[k] == tracks[i];
            assert(kept[k] == tracks[i]);
        } else if !(tracks[i] < start) {
            let k = choose|k: int|
                0 <= k < before.len() && tracks[i] <= #[trigger] before[k] + pitch;
            assert(tracks[i] <= kept[k] + pitch);
        }
    } else if kept.len() > before.len() {
        assert(kept[kept.len() - 1] == tracks[i]);
    } else if before.len() > 0 {
        assert(tracks[i] <= kept[kept.len() - 1] + pitch);
    }
}

/// The tracks kept are among the tracks given, and none that could be kept is passed over: of tracks in
/// ascending order, each at or beyond the start is kept itself or lies no more than a pitch beyond one
/// that is.
pub proof fn law_thinned_keeps_what_fits(tracks: Seq<i32>, start: int, pitch: int, i: int)
    requires
        forall|a: int, b: int| 0 <= a <= b < tracks.len() ==> #[trigger] tracks[a] <= #[trigger] tracks[b],
        pitch >= 0,
        0 <= i < tracks.len(),
        tracks[i] >= start,
    ensures
        exists|k: int|
            0 <= k < thinned(tracks, start, pitch).len() && (#[trigger] thinned(
                tracks,
                start,
                pitch,
            )[k]) <= tracks[i] <= thinned(tracks, start, pitch)[k] + pitch,
        forall|k: int|
            0 <= k < thinned(tracks, start, pitch).len() ==> tracks.contains(
                #[trigger] thinned(tracks, start, pitch)[k],
            ),
    decreases tracks.len(),
{
    let head = tracks.drop_last();
    let (kept, before) = (thinned(tracks, start, pitch), thinned(head, start, pitch));
    lemma_kept_are_tracks(tracks, start, pitch);
    lemma_kept_are_tracks(head, start, pitch);
    if i < head.len() {
        assert forall|a: int, b: int| 0 <= a <= b < head.len() implies #[trigger] head[a]
            <= #[trigger] head[b] by {
            assert(tracks[a] <= tracks[b]);
        }
        assert(head[i] == tracks[i]);
        law_thinned_keeps_what_fits(head, start, pitch, i);
        let k = choose|k: int|
            0 <= k < before.len() && (#[trigger] before[k]) <= head[i] <= before[k] + pitch;
        assert(kept[k] == before[k]);
    } else if kept.len() > before.len() {
        assert(kept[kept.len() - 1] == tracks[i]);
    } else {
        let last = before.len() - 1;
        assert(head.contains(before[last]));
        let m = choose|m: int| 0 <= m < head.len() && head[m] == before[last];
        assert(tracks[m] <= tracks[i]);
        assert(kept[last] == before[last]);
    }
}

proof fn lemma_kept_are_tracks(tracks: Seq<i32>, start: int, pitch: int)
    ensures
        forall|k: int|
            0 <= k < thinned(tracks, start, pitch).len() ==> tracks.contains(
                #[trigger] thinned(tracks, start, pitch)[k],
            ),
    decreases tracks.len(),
{
    if tracks.len() > 0 {
        let head = tracks.drop_last();
        lemma_kept_are_tracks(head, start, pitch);
        let (kept, before) = (thinned(tracks, start, pitch), thinned(head, start, pitch));
        assert(tracks[tracks.len() - 1] == tracks.last());
        assert forall|k: int| 0 <= k < kept.len() implies tracks.contains(#[trigger] kept[k]) by {
            if k < before.len() {
                assert(before[k] == kept[k]);
                let m = choose|m: int| 0 <= m < head.len() && head[m] == before[k];
                assert(tracks[m] == kept[k]);
            }
        }
    }
}

/// The crossings: one for every track of either axis with every track of the other, column by column.
pub proof fn law_crossings(x: Seq<i32>, y: Seq<i32>, i: int, j: int)
    requires
        0 <= i < x.len(),
        0 <= j < y.len(),
    ensures
        crossings(x, y).len() == x.len() * y.len(),
        0 <= i * y.len() + j < crossings(x, y).len(),
        crossings(x, y)[i * y.len() + j] == (x[i], y[j]),
{
    let n = y.len() as int;
    vstd::arithmetic::div_mod::lemma_fundamental_div_mod_converse(i * n + j, n, i, j);
    assert(0 <= i * n && i * n + j < x.len() * n) by (nonlinear_arith)
        requires
            0 <= i <= x.len() - 1,
            0 <= j < n,
    ;
}

} // verus!
