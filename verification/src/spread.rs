//! Force-directed pad placement.
//!
//! Not simulated annealing: there is no random number generator anywhere in it. Three deterministic
//! stages: each pad's ideal position from the bumps it serves, an isotonic regression that restores
//! their order along the row, and an iterative spring-and-repulsion spread that separates them.

use crate::fill::{follows_index, total_index};
use crate::geom::{fits_i32, half, halve};
use crate::single::{
    clip, lemma_ceiling_of_some, lemma_ceiling_unsigned, lemma_exact_difference,
    lemma_exact_quotient, lemma_exact_sum, lemma_nonpositive, lemma_nothing_added,
    lemma_nothing_scaled, lemma_of_i32, lemma_of_int_nonpositive, lemma_of_int_unsigned,
    lemma_one_times_short, lemma_opposite_nonpositive, lemma_times_switch, lemma_unity,
    lemma_unsigned, lemma_whole_stays, Single,
};
use vstd::prelude::*;

verus! {

/// Up to this many spreading iterations before the placer gives up.
pub const MAX_ITERATIONS: i32 = 5000;

/// A tenth: the spring force at the start, in its single-precision encoding.
pub const SPRING_START: u32 = 0x3dcc_cccd;

/// A half: the repulsion at the start, in its single-precision encoding.
pub const REPEL_START: u32 = 0x3f00_0000;

/// A half: the repulsion at the end, in its single-precision encoding.
pub const REPEL_END: u32 = 0x3f00_0000;

/// The first iteration at which the spring force begins to fade: a fifth of the run.
pub const SPRING_FADE_FROM: i32 = 1000;

/// The iteration by which it has faded entirely: half of the run.
pub const SPRING_FADE_TO: i32 = 2500;

/// A fifth: how much of a computed move is actually taken each iteration, in its single-precision
/// encoding.
pub const DAMPER: u32 = 0x3e4c_cccd;

/// The sum of the numbers.
pub open spec fn sum(s: Seq<i32>) -> int
    decreases s.len(),
{
    if s.len() == 0 {
        0
    } else {
        sum(s.drop_last()) + s.last()
    }
}

/// The mean of the numbers, worked out in single precision and rounded.
pub open spec fn mean(s: Seq<i32>) -> int {
    Single::of_int(sum(s)).over(Single::of_int(s.len() as int)).to_nearest(
        i32::MIN as int,
        i32::MAX as int,
    )
}

/// A pad's ideal position: the mean of the bumps it serves.
///
/// The plain mean, rounded: not the median and not weighted. A pad serving two distant bumps sits
/// midway between them, which is a place neither bump wants; the spreading stage is what resolves
/// that.
pub fn ideal_position(bump_centres: &[i32]) -> (r: Option<i32>)
    requires
        i64::MIN <= sum(bump_centres@) <= i64::MAX,
    ensures
        r is None <==> bump_centres.len() == 0,
        r matches Some(p) ==> p == mean(bump_centres@),
{
    if bump_centres.len() == 0 {
        return None;
    }
    let mut total: i128 = 0;
    let mut i: usize = 0;
    assert(bump_centres@.take(0) =~= Seq::<i32>::empty());
    while i < bump_centres.len()
        invariant
            i <= bump_centres.len(),
            total == sum(bump_centres@.take(i as int)),
            -0x8000_0000 * i <= total <= 0x8000_0000 * i,
        decreases bump_centres.len() - i,
    {
        assert(bump_centres@.take(i + 1).drop_last() =~= bump_centres@.take(i as int));
        total = total + bump_centres[i] as i128;
        i += 1;
    }
    assert(bump_centres@.take(bump_centres@.len() as int) =~= bump_centres@);
    Some(
        Single::from_int(total as i64).divide(
            Single::from_count(bump_centres.len()),
        ).round_to_i32(),
    )
}

/// A starting position for a pad that serves no bump.
///
/// Deliberately crude, and order-dependent: the first pad takes the row's start, the last takes its
/// end, the second copies its predecessor, and anything else takes the average of the two before it.
/// It only has to be a starting point the regression can order.
pub fn unconstrained_start(index: usize, count: usize, prior: &[i32], row: (i32, i32)) -> (p: i32)
    requires
        index == 0 || index + 1 == count || index <= prior.len(),
    ensures
        p == if index == 0 {
            row.0 as int
        } else if index + 1 == count {
            row.1 as int
        } else if index == 1 {
            prior@[0] as int
        } else {
            half(prior@[index - 1] + prior@[index - 2])
        },
{
    if index == 0 {
        row.0
    } else if count > 0 && index == count - 1 {
        row.1
    } else if index == 1 {
        prior[0]
    } else {
        halve(prior[index - 1] as i64 + prior[index - 2] as i64) as i32
    }
}

/// Positions and their weights.
pub struct Pooling {
    pub positions: Seq<i32>,
    pub weights: Seq<Single>,
    pub updated: bool,
}

impl Pooling {
    /// The pads `i - 1` and `i` pooled, where the second wants to sit before the first: both move to
    /// their weighted mean. The second's weight takes on the first's, and then the first's takes on
    /// the second's as it then is.
    pub open spec fn pooled(self, i: int) -> Pooling {
        let (p, q) = (self.positions[i - 1], self.positions[i]);
        let (v, w) = (self.weights[i - 1], self.weights[i]);
        if q >= p {
            self
        } else {
            let mean = w.times(Single::of_int(q as int)).plus(
                v.times(Single::of_int(p as int)),
            ).over(w.plus(v)).to_nearest(i32::MIN as int, i32::MAX as int) as i32;
            Pooling {
                positions: self.positions.update(i, mean).update(i - 1, mean),
                weights: self.weights.update(i, w.plus(v)).update(i - 1, v.plus(w.plus(v))),
                updated: true,
            }
        }
    }

    /// The pads pooled one after the other, up to `n`.
    pub open spec fn pooled_upto(self, n: int) -> Pooling
        decreases n,
    {
        if n <= 1 {
            self
        } else {
            self.pooled_upto(n - 1).pooled(n - 1)
        }
    }
}

/// Restore order along the row by pooling adjacent violators.
///
/// Where a pad wants to sit before the one ahead of it, the pair is replaced by their weighted mean
/// and their weights combine. The weight update is asymmetric: the second weight is written first,
/// and the first then uses the value just written, so two unit weights become 2 and 3.
pub fn pool_adjacent_violators(positions: &mut Vec<i32>, weights: &mut Vec<Single>) -> (updated: bool)
    requires
        old(weights).len() >= old(positions).len(),
    ensures
        ({
            let end = (Pooling {
                positions: old(positions)@,
                weights: old(weights)@,
                updated: false,
            }).pooled_upto(old(positions)@.len() as int);
            &&& final(positions)@ == end.positions
            &&& final(weights)@ == end.weights
            &&& updated == end.updated
        }),
{
    let ghost start = Pooling { positions: positions@, weights: weights@, updated: false };
    let mut updated = false;
    let mut i: usize = 1;
    while i < positions.len()
        invariant
            1 <= i,
            i <= positions.len() || (i == 1 && positions.len() == 0),
            positions.len() == start.positions.len(),
            weights.len() == start.weights.len(),
            weights.len() >= positions.len(),
            (Pooling { positions: positions@, weights: weights@, updated }) == start.pooled_upto(
                i as int,
            ),
        decreases positions.len() - i,
    {
        let (p, q): (i32, i32) = (positions[i - 1], positions[i]);
        if q < p {
            updated = true;
            let (v, w) = (weights[i - 1], weights[i]);
            let total = w.add(v);
            let mean: i32 = w.multiply(Single::from_int(q as i64)).add(
                v.multiply(Single::from_int(p as i64)),
            ).divide(total).round_to_i32();
            positions.set(i, mean);
            positions.set(i - 1, mean);
            weights.set(i, total);
            weights.set(i - 1, v.add(total));
        }
        i += 1;
    }
    updated
}

/// Positions that are in order are left alone.
pub proof fn law_ordered_is_left_alone(s: Pooling, n: int)
    requires
        n <= s.positions.len(),
        forall|i: int| 1 <= i < s.positions.len() ==> s.positions[i - 1] <= #[trigger] s.positions[i],
    ensures
        s.pooled_upto(n) == s,
    decreases n,
{
    if n > 1 {
        law_ordered_is_left_alone(s, n - 1);
        assert(s.positions[n - 2] <= s.positions[n - 1]);
    }
}

/// The number with an encoding.
pub open spec fn encoded(bits: u32) -> Single {
    Single { bits }
}

/// The repulsion at an iteration.
pub open spec fn repulsion(iteration: int) -> Single {
    encoded(REPEL_START).plus(
        encoded(REPEL_END).plus(encoded(REPEL_START).opposite()).times(Single::of_int(iteration)).over(
            Single::of_int(MAX_ITERATIONS as int),
        ),
    )
}

/// The spring force at an iteration: full up to the threshold, fading after it, and nothing past the
/// end of the fade.
pub open spec fn spring(iteration: int) -> Single {
    let range = Single::of_int(SPRING_FADE_TO - SPRING_FADE_FROM);
    if iteration > SPRING_FADE_TO {
        Single { bits: 0 }
    } else if iteration > SPRING_FADE_FROM {
        encoded(SPRING_START).times(
            range.plus(Single::of_int(iteration - SPRING_FADE_FROM).opposite()),
        ).over(range)
    } else {
        encoded(SPRING_START)
    }
}

/// The spring and repulsion strengths at a given iteration.
///
/// Repulsion is constant. The spring, which pulls a pad back towards its ideal, holds at full
/// strength for the first fifth of the run, fades linearly to nothing by the halfway point, and is
/// zero thereafter. The comparisons are strictly greater-than, so the fade starts one iteration after
/// the threshold.
pub fn forces(iteration: i32) -> (f: (Single, Single))
    ensures
        f.0 == spring(iteration as int),
        f.1 == repulsion(iteration as int),
{
    let repel = Single::from_bits(REPEL_START).add(
        Single::from_bits(REPEL_END).subtract(Single::from_bits(REPEL_START)).multiply(Single::from_int(iteration as i64)).divide(
            Single::from_int(MAX_ITERATIONS as i64),
        ),
    );
    let range = Single::from_int((SPRING_FADE_TO - SPRING_FADE_FROM) as i64);
    let pull = if iteration > SPRING_FADE_TO {
        Single { bits: 0 }
    } else if iteration > SPRING_FADE_FROM {
        Single::from_bits(SPRING_START).multiply(
            range.subtract(Single::from_int((iteration - SPRING_FADE_FROM) as i64)),
        ).divide(range)
    } else {
        Single::from_bits(SPRING_START)
    };
    (pull, repel)
}

/// The nearest position at which a pad does not overlap: just before the obstruction or just after
/// it, whichever is nearer, unless one of them is off the row.
pub open spec fn clear_of(
    target: int,
    obstruction: Option<(i32, i32)>,
    half_width: int,
    row: (i32, i32),
) -> int {
    match obstruction {
        None => target,
        Some((lo, hi)) => {
            let (start, end) = (lo - half_width, hi + half_width);
            if start < row.0 {
                end
            } else if end > row.1 {
                start
            } else if target - start < end - target {
                start
            } else {
                end
            }
        },
    }
}

/// The nearest position at which a pad does not overlap.
///
/// Given the obstruction a pad at `target` would hit, the two ways out are just before it and just
/// after it, each by half the pad's width. The nearer wins, except at the row's ends, where only one
/// way out exists.
pub fn nearest_legal(
    target: i32,
    obstruction: Option<(i32, i32)>,
    half_width: i32,
    row: (i32, i32),
) -> (p: i32)
    requires
        fits_i32(clear_of(target as int, obstruction, half_width as int, row)),
    ensures
        p == clear_of(target as int, obstruction, half_width as int, row),
{
    let (lo, hi) = match obstruction {
        None => {
            return target;
        },
        Some(o) => o,
    };
    let (start, end): (i64, i64) = (
        lo as i64 - half_width as i64,
        hi as i64 + half_width as i64,
    );
    if start < row.0 as i64 {
        return end as i32;
    }
    if end > row.1 as i64 {
        return start as i32;
    }
    if (target as i64) - start < end - target as i64 {
        start as i32
    } else {
        end as i32
    }
}

/// A pad moved out of an obstruction's way ends where it begins, or begins where it ends.
pub proof fn law_legal_is_clear(
    target: int,
    obstruction: (i32, i32),
    half_width: int,
    row: (i32, i32),
)
    ensures
        ({
            let p = clear_of(target, Some(obstruction), half_width, row);
            p + half_width == obstruction.0 || p - half_width == obstruction.1
        }),
{
}

/// Where a pad sits: its span and its centre, kept together because the loop needs both.
#[derive(Debug, Clone, Copy, PartialEq, Eq)]
pub struct Anchor {
    pub min: i32,
    pub centre: i32,
    pub max: i32,
    pub width: i32,
}

/// A value held within the machine's range.
pub open spec fn held(v: int) -> int {
    clip(v, i32::MIN as int, i32::MAX as int)
}

/// A pad of a width at a position, its span held within the machine's range.
pub open spec fn anchored(pos: int, width: i32) -> Anchor {
    Anchor {
        min: held(pos) as i32,
        centre: held(pos + half(width as int)) as i32,
        max: held(pos + width) as i32,
        width,
    }
}

/// How far `b` reaches past the start of `a`.
pub open spec fn reach(a: Anchor, b: Anchor) -> int {
    if b.max > a.min {
        b.max - a.min
    } else {
        0
    }
}

pub(crate) fn hold(v: i64) -> (h: i32)
    ensures
        h == held(v as int),
{
    if v < i32::MIN as i64 {
        i32::MIN
    } else if v > i32::MAX as i64 {
        i32::MAX
    } else {
        v as i32
    }
}

impl Anchor {
    /// A pad of a width at a position.
    pub fn at(pos: i32, width: i32) -> (a: Anchor)
        requires
            fits_i32(pos + half(width as int)),
            fits_i32(pos + width),
        ensures
            a.min == pos,
            a.centre == pos + half(width as int),
            a.max == pos + width,
            a.width == width,
    {
        Anchor {
            min: pos,
            centre: (pos as i64 + halve(width as i64)) as i32,
            max: (pos as i64 + width as i64) as i32,
            width,
        }
    }

    fn settle(pos: i64, width: i32) -> (a: Anchor)
        requires
            -0x10_0000_0000 <= pos <= 0x10_0000_0000,
        ensures
            a == anchored(pos as int, width),
    {
        Anchor {
            min: hold(pos),
            centre: hold(pos + halve(width as i64)),
            max: hold(pos + width as i64),
            width,
        }
    }

    /// Move the pad to a position.
    pub fn set_location(&mut self, pos: i32)
        requires
            fits_i32(pos + half(old(self).width as int)),
            fits_i32(pos + old(self).width),
        ensures
            final(self).min == pos,
            final(self).centre == pos + half(old(self).width as int),
            final(self).max == pos + old(self).width,
            final(self).width == old(self).width,
    {
        *self = Anchor::at(pos, self.width);
    }

    /// How far `other` reaches past this pad's start.
    ///
    /// One-sided and directional: it measures only `other.max - self.min`, so it is meaningful when
    /// `other` is the pad before this one and meaningless the other way round.
    pub fn overlap(&self, other: &Anchor) -> (o: i32)
        requires
            fits_i32(reach(*self, *other)),
        ensures
            o == reach(*self, *other),
    {
        if other.max > self.min {
            (other.max as i64 - self.min as i64) as i32
        } else {
            0
        }
    }

    fn reach_of(&self, other: &Anchor) -> (o: i64)
        ensures
            o == reach(*self, *other),
            0 <= o <= 0x1_0000_0000,
    {
        if other.max > self.min {
            other.max as i64 - self.min as i64
        } else {
            0
        }
    }
}

/// The force on a pad, and how many sites its damped magnitude comes to: the spring pulls it toward
/// its ideal, and an overlap pushes it away by the overlap and a whole site.
pub open spec fn pushed(
    spring_delta: int,
    spring: Single,
    overlap_prev: int,
    overlap_next: int,
    repel: Single,
    damper: Single,
    site: int,
) -> (Single, Single) {
    let pull = Single::of_int(spring_delta).times(spring);
    let ahead = if overlap_prev > 0 {
        pull.plus(Single::of_int(overlap_prev + site).times(repel))
    } else {
        pull
    };
    let force = if overlap_next > 0 {
        ahead.plus(Single::of_int(overlap_next + site).times(repel).opposite())
    } else {
        ahead
    };
    let damped = force.times(damper);
    let magnitude = if damped.neg() {
        damped.opposite()
    } else {
        damped
    };
    (force, magnitude.over(Single::of_int(site)))
}

/// How far a pad moves: its damped force, rounded up to whole sites.
pub open spec fn step(
    spring_delta: int,
    spring: Single,
    overlap_prev: int,
    overlap_next: int,
    repel: Single,
    damper: Single,
    site: int,
) -> int {
    let (force, quotient) = pushed(
        spring_delta,
        spring,
        overlap_prev,
        overlap_next,
        repel,
        damper,
        site,
    );
    let sites = quotient.ceiling(i32::MIN as int, i32::MAX as int);
    if force.below_zero() {
        -(sites * site)
    } else {
        sites * site
    }
}

fn step_wide(
    spring_delta: i64,
    spring: Single,
    overlap_prev: i64,
    overlap_next: i64,
    repel: Single,
    damper: Single,
    site: i32,
) -> (m: i64)
    requires
        overlap_prev <= 0x1_0000_0000,
        overlap_next <= 0x1_0000_0000,
    ensures
        m == step(
            spring_delta as int,
            spring,
            overlap_prev as int,
            overlap_next as int,
            repel,
            damper,
            site as int,
        ),
        -0x4000_0000_0000_0000 <= m <= 0x4000_0000_0000_0000,
{
    let mut force = Single::from_int(spring_delta).multiply(spring);
    if overlap_prev > 0 {
        force = force.add(Single::from_int(overlap_prev + site as i64).multiply(repel));
    }
    if overlap_next > 0 {
        force = force.subtract(Single::from_int(overlap_next + site as i64).multiply(repel));
    }
    let magnitude = force.multiply(damper).magnitude();
    let (k, s): (i64, i64) = (
        magnitude.divide(Single::from_int(site as i64)).ceil_to_i32() as i64,
        site as i64,
    );
    assert(-0x4000_0000_0000_0000 <= k * s <= 0x4000_0000_0000_0000) by (nonlinear_arith)
        requires
            -0x8000_0000 <= k <= 0x8000_0000,
            -0x8000_0000 <= s <= 0x8000_0000,
    ;
    if force.is_below_zero() {
        -(k * s)
    } else {
        k * s
    }
}

/// How far a pad moves this iteration.
///
/// The spring pulls it toward its ideal; an overlap with the pad before pushes it forward and one
/// with the pad after pushes it back, each by the overlap plus a whole site, so a resolved collision
/// leaves a gap rather than a touch. The damped move is rounded up to a whole site, so any non-zero
/// force moves at least one site: rounding down would let a small force round to nothing, and the
/// loop would spin to the iteration limit with the row still overlapping.
pub fn step_move(
    spring_delta: i32,
    spring: Single,
    overlap_prev: i32,
    overlap_next: i32,
    repel: Single,
    damper: Single,
    site: i32,
) -> (m: i32)
    requires
        fits_i32(
            step(
                spring_delta as int,
                spring,
                overlap_prev as int,
                overlap_next as int,
                repel,
                damper,
                site as int,
            ),
        ),
    ensures
        m == step(
            spring_delta as int,
            spring,
            overlap_prev as int,
            overlap_next as int,
            repel,
            damper,
            site as int,
        ),
{
    step_wide(
        spring_delta as i64,
        spring,
        overlap_prev as i64,
        overlap_next as i64,
        repel,
        damper,
        site,
    ) as i32
}

/// What a pass works with.
pub struct Pull {
    pub targets: Seq<i32>,
    pub row: (i32, i32),
    pub spring: Single,
    pub repel: Single,
    pub damper: Single,
    pub site: int,
    pub snap: spec_fn(i32) -> i32,
}

impl Pull {
    /// The least centre the pad `i` may have: that of the pad before it; for the first, the row's
    /// start and half the pad.
    pub open spec fn least(self, a: Seq<Anchor>, i: int) -> int {
        if i == 0 {
            self.row.0 + half(a[i].width as int)
        } else {
            a[i - 1].centre as int
        }
    }

    /// The greatest centre the pad `i` may have.
    pub open spec fn greatest(self, a: Seq<Anchor>, i: int) -> int {
        if i == a.len() - 1 {
            self.row.1 - half(a[i].width as int)
        } else {
            a[i + 1].centre as int
        }
    }

    pub open spec fn behind(self, a: Seq<Anchor>, i: int) -> int {
        if i == 0 {
            0
        } else {
            reach(a[i], a[i - 1])
        }
    }

    pub open spec fn ahead(self, a: Seq<Anchor>, i: int) -> int {
        if i == a.len() - 1 {
            0
        } else {
            reach(a[i + 1], a[i])
        }
    }

    /// Where the centre of the pad `i` goes: by its force, snapped to a site, and held between its
    /// neighbours' centres.
    pub open spec fn centre(self, a: Seq<Anchor>, i: int) -> int {
        let h = half(a[i].width as int);
        let by = step(
            self.targets[i] - a[i].centre,
            self.spring,
            self.behind(a, i),
            self.ahead(a, i),
            self.repel,
            self.damper,
            self.site,
        );
        let want = (self.snap)(held(a[i].centre + by - h) as i32) + h;
        clip(want, self.least(a, i), self.greatest(a, i))
    }

    /// The first `n` pads moved in turn, each seeing those before it already moved, and whether any
    /// of them overlapped.
    pub open spec fn passed(self, a: Seq<Anchor>, n: int) -> (Seq<Anchor>, bool)
        decreases n,
    {
        if n <= 0 {
            (a, false)
        } else {
            let (now, hit) = self.passed(a, n - 1);
            let i = n - 1;
            let to = self.centre(now, i) - half(now[i].width as int);
            (
                now.update(i, anchored(to, now[i].width)),
                hit || self.behind(now, i) > 0 || self.ahead(now, i) > 0,
            )
        }
    }
}

/// One pass over the row.
///
/// Each pad moves in turn and sees the pads before it already moved: the pass is sequential, not
/// simultaneous. A pad is clamped between its neighbours' centres, and between the row's ends for
/// the first and last. The row's ends are inset by half the pad's own width, because everything in
/// this loop is in centre coordinates.
///
/// Returns whether any overlap was found, which is what stops the outer loop.
pub fn spread_pass<F: Fn(i32) -> i32>(
    anchors: &mut Vec<Anchor>,
    targets: &[i32],
    row: (i32, i32),
    spring: Single,
    repel: Single,
    damper: Single,
    site: i32,
    snap: &F,
) -> (violations: bool)
    requires
        targets.len() >= old(anchors).len(),
        total_index(*snap),
    ensures
        forall|rule: spec_fn(i32) -> i32| #[trigger]
            follows_index(*snap, rule) ==> ({
                let pull = Pull {
                    targets: targets@,
                    row,
                    spring,
                    repel,
                    damper,
                    site: site as int,
                    snap: rule,
                };
                (final(anchors)@, violations) == pull.passed(
                    old(anchors)@,
                    old(anchors)@.len() as int,
                )
            }),
{
    let ghost start = anchors@;
    let n: usize = anchors.len();
    let mut violations = false;
    let mut i: usize = 0;
    while i < n
        invariant
            i <= n,
            n == start.len(),
            anchors.len() == n,
            targets.len() >= n,
            total_index(*snap),
            forall|rule: spec_fn(i32) -> i32| #[trigger]
                follows_index(*snap, rule) ==> (anchors@, violations) == (Pull {
                    targets: targets@,
                    row,
                    spring,
                    repel,
                    damper,
                    site: site as int,
                    snap: rule,
                }).passed(start, i as int),
        decreases n - i,
    {
        let curr = anchors[i];
        let h: i64 = halve(curr.width as i64);
        let least: i64 = if i == 0 { row.0 as i64 + h } else { anchors[i - 1].centre as i64 };
        let greatest: i64 = if i == n - 1 {
            row.1 as i64 - h
        } else {
            anchors[i + 1].centre as i64
        };
        let behind: i64 = if i == 0 { 0 } else { curr.reach_of(&anchors[i - 1]) };
        let ahead: i64 = if i == n - 1 { 0 } else { anchors[i + 1].reach_of(&curr) };
        let by: i64 = step_wide(
            targets[i] as i64 - curr.centre as i64,
            spring,
            behind,
            ahead,
            repel,
            damper,
            site,
        );
        let want: i64 = snap(hold(curr.centre as i64 + by - h)) as i64 + h;
        let centre: i64 = if want < least {
            least
        } else if want > greatest {
            greatest
        } else {
            want
        };
        if behind > 0 || ahead > 0 {
            violations = true;
        }
        anchors.set(i, Anchor::settle(centre - h, curr.width));
        i += 1;
    }
    violations
}

/// A pad that has moved is held between its neighbours' centres, however hard it is pulled, as long
/// as they are in order.
pub proof fn law_pad_stays_between(p: Pull, a: Seq<Anchor>, i: int)
    requires
        0 <= i < a.len(),
        p.least(a, i) <= p.greatest(a, i),
        fits_i32(p.least(a, i)),
        fits_i32(p.greatest(a, i)),
    ensures
        ({
            let to = p.centre(a, i) - half(a[i].width as int);
            let new = anchored(to, a[i].width);
            p.least(a, i) <= new.centre <= p.greatest(a, i)
        }),
{
}

/// A pad is moved no further than the middle of a neighbour, and an end pad no further than the end of
/// the row lets it stand, as long as the two are in order.
pub proof fn law_pads_keep_their_order(p: Pull, a: Seq<Anchor>, i: int)
    requires
        0 <= i < a.len(),
        a[i].width >= 0,
    ensures
        0 < i < a.len() - 1 && a[i - 1].centre <= a[i + 1].centre ==> a[i - 1].centre <= p.centre(a, i)
            <= a[i + 1].centre,
        0 == i < a.len() - 1 && p.row.0 + a[i].width / 2 <= a[i + 1].centre ==> p.row.0 + a[i].width / 2
            <= p.centre(a, i) <= a[i + 1].centre,
        0 < i == a.len() - 1 && a[i - 1].centre <= p.row.1 - a[i].width / 2 ==> a[i - 1].centre
            <= p.centre(a, i) <= p.row.1 - a[i].width / 2,
        0 == i == a.len() - 1 && a[i].width <= p.row.1 - p.row.0 ==> p.row.0 + a[i].width / 2
            <= p.centre(a, i) <= p.row.1 - a[i].width / 2,
{
}

/// Repulsion is the same at every iteration.
pub proof fn law_repulsion_is_constant(iteration: i32)
    ensures
        repulsion(iteration as int) == encoded(REPEL_START),
{
    let start = encoded(REPEL_START);
    let zero = encoded(REPEL_END).plus(start.opposite());
    crate::single::lemma_less_itself(start);
    lemma_of_i32(iteration as int);
    lemma_of_i32(MAX_ITERATIONS as int);
    lemma_nothing_added(
        zero,
        Single::of_int(iteration as int),
        Single::of_int(MAX_ITERATIONS as int),
        start,
    );
}

/// A pad moves by whole sites.
pub proof fn law_moves_whole_sites(
    spring_delta: int,
    spring: Single,
    overlap_prev: int,
    overlap_next: int,
    repel: Single,
    damper: Single,
    site: int,
)
    requires
        site > 0,
    ensures
        step(spring_delta, spring, overlap_prev, overlap_next, repel, damper, site) % site == 0,
{
    let m = step(spring_delta, spring, overlap_prev, overlap_next, repel, damper, site);
    let (force, quotient) = pushed(
        spring_delta,
        spring,
        overlap_prev,
        overlap_next,
        repel,
        damper,
        site,
    );
    let k = quotient.ceiling(i32::MIN as int, i32::MAX as int);
    vstd::arithmetic::div_mod::lemma_mod_multiples_basic(k, site);
    vstd::arithmetic::div_mod::lemma_mod_multiples_basic(-k, site);
    assert(-(k * site) == (-k) * site) by (nonlinear_arith);
}

/// Any force that damping leaves something of moves a pad by at least one site, in its direction.
pub proof fn law_any_force_moves(
    spring_delta: int,
    spring: Single,
    overlap_prev: int,
    overlap_next: int,
    repel: Single,
    damper: Single,
    site: int,
)
    requires
        site > 0,
        ({
            let (force, quotient) = pushed(
                spring_delta,
                spring,
                overlap_prev,
                overlap_next,
                repel,
                damper,
                site,
            );
            !quotient.is_nan() && !quotient.is_zero() && !quotient.neg()
        }),
    ensures
        ({
            let (force, quotient) = pushed(
                spring_delta,
                spring,
                overlap_prev,
                overlap_next,
                repel,
                damper,
                site,
            );
            let m = step(spring_delta, spring, overlap_prev, overlap_next, repel, damper, site);
            if force.below_zero() {
                m <= -site
            } else {
                m >= site
            }
        }),
{
    let (force, quotient) = pushed(
        spring_delta,
        spring,
        overlap_prev,
        overlap_next,
        repel,
        damper,
        site,
    );
    lemma_ceiling_of_some(quotient, i32::MIN as int, i32::MAX as int);
    let k = quotient.ceiling(i32::MIN as int, i32::MAX as int);
    assert(k * site >= site) by (nonlinear_arith)
        requires
            k >= 1,
            site > 0,
    ;
}

/// A force that is not below zero moves a pad forward or not at all, and one that is not above it
/// moves it back or not at all.
proof fn lemma_step_sign(
    spring_delta: int,
    spring: Single,
    overlap_prev: int,
    overlap_next: int,
    repel: Single,
    damper: Single,
    site: int,
)
    requires
        0 < site <= i32::MAX,
    ensures
        ({
            let force = pushed(
                spring_delta,
                spring,
                overlap_prev,
                overlap_next,
                repel,
                damper,
                site,
            ).0;
            let m = step(spring_delta, spring, overlap_prev, overlap_next, repel, damper, site);
            &&& force.unsigned() ==> m >= 0
            &&& force.nonpositive() ==> m <= 0
        }),
{
    let (force, quotient) = pushed(
        spring_delta,
        spring,
        overlap_prev,
        overlap_next,
        repel,
        damper,
        site,
    );
    lemma_damped(force, damper, site);
    let k = quotient.ceiling(i32::MIN as int, i32::MAX as int);
    assert(k * site >= 0 && (k == 0 ==> k * site == 0)) by (nonlinear_arith)
        requires
            k >= 0,
            site > 0,
    ;
}

/// How many sites a force is damped to: never fewer than none, and none where there is no force.
proof fn lemma_damped(force: Single, damper: Single, site: int)
    requires
        0 < site <= i32::MAX,
    ensures
        ({
            let damped = force.times(damper);
            let magnitude = if damped.neg() {
                damped.opposite()
            } else {
                damped
            };
            let quotient = magnitude.over(Single::of_int(site));
            let k = quotient.ceiling(i32::MIN as int, i32::MAX as int);
            &&& k >= 0
            &&& force.is_zero() || force.is_nan() ==> k == 0 && (quotient.is_zero()
                || quotient.is_nan())
        }),
{
    let damped = force.times(damper);
    let magnitude = if damped.neg() {
        damped.opposite()
    } else {
        damped
    };
    let unit = Single::of_int(site);
    let quotient = magnitude.over(unit);
    lemma_of_i32(site);
    lemma_of_int_unsigned(site);
    lemma_magnitude(damped);
    lemma_unsigned(magnitude, unit);
    lemma_ceiling_unsigned(quotient, i32::MIN as int, i32::MAX as int);
    if force.is_zero() || force.is_nan() {
        lemma_nothing_scaled(force, damper);
        lemma_nothing_scaled(magnitude, unit);
    }
}

proof fn lemma_magnitude(s: Single)
    ensures
        ({
            let m = if s.neg() {
                s.opposite()
            } else {
                s
            };
            &&& m.unsigned()
            &&& s.is_zero() ==> m.is_zero()
            &&& s.is_nan() ==> m.is_nan()
        }),
{
}

/// What pushes a pad which way. The spring pulls it to where it wants to be: forward where that lies
/// ahead and back where it lies behind. An overlap with the pad before pushes it forward, and one with
/// the pad after pushes it back. Where all that acts on it acts one way, it does not go the other.
pub proof fn law_forces_point_the_right_way(
    spring_delta: int,
    spring: Single,
    overlap_prev: int,
    overlap_next: int,
    repel: Single,
    damper: Single,
    site: int,
)
    requires
        0 < site <= i32::MAX,
        spring.unsigned(),
        repel.unsigned(),
        overlap_prev >= 0,
        overlap_next >= 0,
    ensures
        ({
            let m = step(spring_delta, spring, overlap_prev, overlap_next, repel, damper, site);
            &&& spring_delta >= 0 && overlap_next == 0 ==> m >= 0
            &&& spring_delta <= 0 && overlap_prev == 0 ==> m <= 0
        }),
{
    lemma_step_sign(spring_delta, spring, overlap_prev, overlap_next, repel, damper, site);
    lemma_force_sign(spring_delta, spring, overlap_prev, overlap_next, repel, damper, site);
}

proof fn lemma_force_sign(
    spring_delta: int,
    spring: Single,
    overlap_prev: int,
    overlap_next: int,
    repel: Single,
    damper: Single,
    site: int,
)
    requires
        0 < site,
        spring.unsigned(),
        repel.unsigned(),
        overlap_prev >= 0,
        overlap_next >= 0,
    ensures
        ({
            let force = pushed(
                spring_delta,
                spring,
                overlap_prev,
                overlap_next,
                repel,
                damper,
                site,
            ).0;
            &&& spring_delta >= 0 && overlap_next == 0 ==> force.unsigned()
            &&& spring_delta <= 0 && overlap_prev == 0 ==> force.nonpositive()
        }),
{
    let pull = Single::of_int(spring_delta).times(spring);
    let (p, n) = (Single::of_int(overlap_prev + site), Single::of_int(overlap_next + site));
    lemma_of_int_unsigned(overlap_prev + site);
    lemma_of_int_unsigned(overlap_next + site);
    lemma_unsigned(p, repel);
    lemma_unsigned(n, repel);
    if spring_delta >= 0 {
        lemma_of_int_unsigned(spring_delta);
        lemma_unsigned(Single::of_int(spring_delta), spring);
        lemma_unsigned(pull, p.times(repel));
    }
    if spring_delta <= 0 {
        lemma_of_int_nonpositive(spring_delta);
        lemma_nonpositive(Single::of_int(spring_delta), spring);
        lemma_opposite_nonpositive(n.times(repel));
        lemma_nonpositive(pull, n.times(repel).opposite());
    }
}

/// A pad that overlaps neither neighbour, and stands between their centres, moves toward its target and
/// never away from it; at its target it stays. It does move where damping leaves something of the
/// force and there is room on that side.
pub proof fn law_spring_pulls(p: Pull, a: Seq<Anchor>, i: int)
    requires
        0 <= i < a.len(),
        0 < p.site <= i32::MAX,
        p.spring.unsigned(),
        p.repel.unsigned(),
        forall|v: i32| #[trigger] (p.snap)(v) == v,
        fits_i32(a[i].centre - half(a[i].width as int)),
        i == 0 ==> p.row.0 + half(a[i].width as int) <= a[i].centre,
        i > 0 ==> a[i - 1].max <= a[i].min && a[i - 1].centre <= a[i].centre,
        i == a.len() - 1 ==> a[i].centre <= p.row.1 - half(a[i].width as int),
        i < a.len() - 1 ==> a[i].max <= a[i + 1].min && a[i].centre <= a[i + 1].centre,
    ensures
        ({
            let (from, to) = (a[i].centre, p.centre(a, i));
            let target = p.targets[i];
            let left = pushed(target - from, p.spring, 0, 0, p.repel, p.damper, p.site).1;
            let some = !left.is_nan() && !left.is_zero() && !left.neg();
            let h = half(a[i].width as int);
            let end = if i == a.len() - 1 {
                p.row.1 - h
            } else {
                a[i + 1].centre as int
            };
            let begin = if i == 0 {
                p.row.0 + h
            } else {
                a[i - 1].centre as int
            };
            &&& target >= from ==> to >= from
            &&& target <= from ==> to <= from
            &&& target > from && some && from - h < i32::MAX && from < end ==> to > from
            &&& target < from && some && from - h > i32::MIN && from > begin ==> to < from
        }),
{
    let delta = p.targets[i] - a[i].centre;
    law_forces_point_the_right_way(delta, p.spring, 0, 0, p.repel, p.damper, p.site);
    lemma_force_sign(delta, p.spring, 0, 0, p.repel, p.damper, p.site);
    let (force, left) = pushed(delta, p.spring, 0, 0, p.repel, p.damper, p.site);
    lemma_damped(force, p.damper, p.site);
    if !left.is_nan() && !left.is_zero() && !left.neg() {
        law_any_force_moves(delta, p.spring, 0, 0, p.repel, p.damper, p.site);
    }
    let h = half(a[i].width as int);
    let by = step(delta, p.spring, 0, 0, p.repel, p.damper, p.site);
    assert((p.snap)(held(a[i].centre + by - h) as i32) == held(a[i].centre + by - h));
}

/// A pass moves each pad once, from what the pads before it left: the pad `i` goes to where
/// [`Pull::centre`] sends it then, and what comes after leaves it there.
pub proof fn law_pass_moves_each_once(p: Pull, a: Seq<Anchor>, n: int, i: int)
    requires
        0 <= i < n <= a.len(),
    ensures
        ({
            let now = p.passed(a, i).0;
            &&& p.passed(a, n).0.len() == a.len()
            &&& now[i] == a[i]
            &&& p.passed(a, n).0[i] == anchored(
                p.centre(now, i) - half(a[i].width as int),
                a[i].width,
            )
            &&& forall|k: int| n <= k < a.len() ==> #[trigger] p.passed(a, n).0[k] == a[k]
        }),
    decreases n,
{
    lemma_pass_so_far(p, a, n - 1);
    if i < n - 1 {
        law_pass_moves_each_once(p, a, n - 1, i);
    } else {
        assert(p.passed(a, n - 1).0[i] == a[i]);
    }
}

proof fn lemma_pass_so_far(p: Pull, a: Seq<Anchor>, n: int)
    requires
        0 <= n <= a.len(),
    ensures
        p.passed(a, n).0.len() == a.len(),
        forall|k: int| n <= k < a.len() ==> #[trigger] p.passed(a, n).0[k] == a[k],
    decreases n,
{
    if n > 0 {
        lemma_pass_so_far(p, a, n - 1);
    }
}

/// A pass reports an overlap exactly where a pad, as it stands when its turn comes, reaches past the
/// start of the next or is reached past by the one before.
pub proof fn law_pass_finds_overlaps(p: Pull, a: Seq<Anchor>, n: int)
    requires
        0 <= n <= a.len(),
    ensures
        p.passed(a, n).1 <==> exists|i: int| 0 <= i < n && #[trigger] overlaps_at(p, a, i),
    decreases n,
{
    if n > 0 {
        law_pass_finds_overlaps(p, a, n - 1);
        lemma_pass_so_far(p, a, n - 1);
        let now = p.passed(a, n - 1).0;
        assert(overlaps_at(p, a, n - 1) <==> p.behind(now, n - 1) > 0 || p.ahead(now, n - 1) > 0);
        if p.passed(a, n).1 {
            if p.passed(a, n - 1).1 {
                let i = choose|i: int| 0 <= i < n - 1 && #[trigger] overlaps_at(p, a, i);
                assert(overlaps_at(p, a, i));
            } else {
                assert(overlaps_at(p, a, n - 1));
            }
        }
    }
}

/// When its turn comes, pad `i` overlaps a neighbour.
pub open spec fn overlaps_at(p: Pull, a: Seq<Anchor>, i: int) -> bool {
    let now = p.passed(a, i).0;
    (i > 0 && now[i - 1].max > now[i].min) || (i < a.len() - 1 && now[i].max > now[i + 1].min)
}

/// The numbers of two lists come to what each comes to, and one number to itself.
pub proof fn law_sum(a: Seq<i32>, b: Seq<i32>, x: i32)
    ensures
        sum(a + b) == sum(a) + sum(b),
        sum(seq![x]) == x,
        sum(Seq::<i32>::empty()) == 0,
    decreases b.len(),
{
    let one = seq![x];
    assert(one.drop_last() =~= Seq::<i32>::empty());
    assert(sum(one) == sum(one.drop_last()) + x);
    if b.len() == 0 {
        assert(a + b =~= a);
    } else {
        law_sum(a, b.drop_last(), x);
        assert((a + b).drop_last() =~= a + b.drop_last());
    }
}

/// A pad's ideal position is the mean of its bumps: where their sum is a whole number of times their
/// count, and short enough for single precision to hold, it is that number exactly.
pub proof fn law_ideal_is_the_mean(centres: Seq<i32>, m: int)
    requires
        1 <= centres.len() < 0x100_0000,
        sum(centres) == m * centres.len(),
        -0x100_0000 < sum(centres) < 0x100_0000,
    ensures
        mean(centres) == m,
{
    let n = centres.len() as int;
    lemma_exact_quotient(m, n);
    assert(-0x100_0000 < m < 0x100_0000) by (nonlinear_arith)
        requires
            -0x100_0000 < m * n < 0x100_0000,
            n >= 1,
    ;
    lemma_whole_stays(m);
}

/// What pooling does to a pair that is out of order: both go to one place, and nothing else moves.
/// With a weight of one each, that is the middle between them, and their weights become two and three.
pub proof fn law_pooled_meet_in_the_middle(s: Pooling, i: int)
    requires
        1 <= i < s.positions.len() <= s.weights.len(),
        s.positions[i] < s.positions[i - 1],
    ensures
        ({
            let t = s.pooled(i);
            let (p, q) = (s.positions[i - 1], s.positions[i]);
            &&& t.updated
            &&& t.positions.len() == s.positions.len() && t.positions[i - 1] == t.positions[i]
            &&& forall|k: int|
                0 <= k < s.positions.len() && k != i && k != i - 1 ==> #[trigger] t.positions[k]
                    == s.positions[k]
            &&& forall|k: int|
                0 <= k < s.weights.len() && k != i && k != i - 1 ==> #[trigger] t.weights[k]
                    == s.weights[k]
            &&& s.weights[i - 1] == Single::unity() && s.weights[i] == Single::unity() && 0 <= q
                && p + q < 0x100_0000 && (p + q) % 2 == 0 ==> {
                &&& 2 * t.positions[i] == p + q
                &&& t.weights[i] == Single::of_int(2)
                &&& t.weights[i - 1] == Single::of_int(3)
            }
        }),
{
    let (p, q) = (s.positions[i - 1] as int, s.positions[i] as int);
    if s.weights[i - 1] == Single::unity() && s.weights[i] == Single::unity() && 0 <= q && p + q
        < 0x100_0000 && (p + q) % 2 == 0 {
        lemma_unity();
        lemma_one_times_short(p);
        lemma_one_times_short(q);
        lemma_exact_sum(q, p);
        lemma_exact_sum(1, 1);
        lemma_exact_sum(1, 2);
        let h = (p + q) / 2;
        assert(h * 2 == p + q);
        lemma_exact_quotient(h, 2);
        lemma_whole_stays(h);
    }
}

/// A pass of pooling pools every neighbouring pair once, from the first on: each pair as the pairs before
/// it left it. It reports a change exactly where some pair was out of order.
pub proof fn law_pooling_goes_pair_by_pair(s: Pooling, n: int)
    requires
        1 <= n < s.positions.len() <= s.weights.len(),
    ensures
        s.pooled_upto(n + 1) == s.pooled_upto(n).pooled(n),
        s.pooled_upto(1) == s,
        s.pooled_upto(n).positions.len() == s.positions.len(),
        s.pooled_upto(n + 1).updated == (s.pooled_upto(n).updated || s.pooled_upto(n).positions[n]
            < s.pooled_upto(n).positions[n - 1]),
    decreases n,
{
    if n > 1 {
        law_pooling_goes_pair_by_pair(s, n - 1);
    }
}

/// How the spring fades: at full strength through the first fifth of the run, at none after half of it,
/// and in between as much of it as is left of the fade.
pub proof fn law_spring_fades(iteration: int)
    ensures
        iteration <= 1000 ==> spring(iteration) == encoded(SPRING_START),
        iteration > 2500 ==> spring(iteration).is_zero(),
        1000 < iteration <= 2500 ==> spring(iteration) == encoded(SPRING_START).times(
            Single::of_int(2500 - iteration),
        ).over(Single::of_int(1500)),
{
    if 1000 < iteration <= 2500 {
        crate::single::lemma_exact_difference(1500, iteration - 1000);
    }
}

/// A pad leaves an obstruction by the nearer way that stays on the row, and goes nowhere where there is
/// none.
pub proof fn law_legal_is_the_nearer_way(
    target: int,
    obstruction: Option<(i32, i32)>,
    half_width: int,
    row: (i32, i32),
)
    requires
        obstruction matches Some(o) ==> o.0 - half_width < o.1 + half_width,
    ensures
        obstruction is None ==> clear_of(target, obstruction, half_width, row) == target,
        obstruction matches Some(o) ==> {
            let (before, after) = (o.0 - half_width, o.1 + half_width);
            let to = clear_of(target, obstruction, half_width, row);
            &&& to == before || to == after
            &&& before >= row.0 && after <= row.1 && to == before ==> target - before < after
                - target
            &&& before >= row.0 && after <= row.1 && to == after ==> after - target <= target
                - before
            &&& before < row.0 ==> to == after
            &&& before >= row.0 && after > row.1 ==> to == before
        },
{
}

/// The forces add up: the spring's pull, and the push of each overlap by itself and a whole site, away
/// from the pad that overlaps. Each counts as often as its strength says, and the sum as often as the
/// damper says; here each is on or off, and every distance is whole sites.
pub proof fn law_forces_add_up(
    delta: int,
    prev: int,
    next: int,
    site: int,
    spring: int,
    repel: int,
    damper: int,
)
    requires
        1 <= site,
        0 <= delta && 0 <= prev && 0 <= next,
        delta + prev + next + 2 * site < 0x100_0000,
        delta % site == 0 && prev % site == 0 && next % site == 0,
        0 <= spring <= 1 && 0 <= repel <= 1 && 0 <= damper <= 1,
        next <= prev || (next > 0 && spring == 1 && next + site <= delta),
    ensures
        ({
            let pull = if spring == 1 {
                delta
            } else {
                0
            };
            let on = if prev > 0 && repel == 1 {
                prev + site
            } else {
                0
            };
            let back = if next > 0 && repel == 1 {
                next + site
            } else {
                0
            };
            let by = step(
                delta,
                Single::of_int(spring),
                prev,
                next,
                Single::of_int(repel),
                Single::of_int(damper),
                site,
            );
            by == if damper == 1 {
                pull + on - back
            } else {
                0
            }
        }),
{
    let pull = if spring == 1 {
        delta
    } else {
        0
    };
    let on = if prev > 0 && repel == 1 {
        prev + site
    } else {
        0
    };
    let back = if next > 0 && repel == 1 {
        next + site
    } else {
        0
    };
    let all = pull + on - back;
    lemma_times_switch(delta, spring);
    lemma_times_switch(prev + site, repel);
    lemma_times_switch(next + site, repel);
    lemma_exact_sum(pull, on);
    lemma_exact_difference(pull + on, back);
    lemma_times_switch(all, damper);
    let sum = if damper == 1 {
        all
    } else {
        0
    };
    let (i, j, k) = (delta / site, prev / site, next / site);
    let m = (if pull > 0 {
        i
    } else {
        0
    }) + (if on > 0 {
        j + 1
    } else {
        0
    }) - (if back > 0 {
        k + 1
    } else {
        0
    });
    vstd::arithmetic::div_mod::lemma_fundamental_div_mod(delta, site);
    vstd::arithmetic::div_mod::lemma_fundamental_div_mod(prev, site);
    vstd::arithmetic::div_mod::lemma_fundamental_div_mod(next, site);
    assert((j + 1) * site == site * j + site && (k + 1) * site == site * k + site && i * site == site
        * i && 0 * site == 0) by (nonlinear_arith);
    let (x, y, z) = (
        if pull > 0 {
            i
        } else {
            0
        },
        if on > 0 {
            j + 1
        } else {
            0
        },
        if back > 0 {
            k + 1
        } else {
            0
        },
    );
    assert(m == x + y - z && x * site == pull && y * site == on && z * site == back);
    assert((x + y - z) * site == x * site + y * site - z * site) by (nonlinear_arith);
    let sites = if damper == 1 {
        m
    } else {
        0
    };
    assert(sites * site == sum);
    lemma_exact_quotient(sites, site);
    assert(0 <= sites <= sum) by (nonlinear_arith)
        requires
            sites * site == sum,
            sum >= 0,
            site >= 1,
    ;
    lemma_whole_stays(sites);
    lemma_of_int_unsigned(all);
    lemma_of_int_unsigned(sum);
}

/// A pad's span is its width and no more, and its centre half a width from its start.
pub proof fn law_anchor_spans_its_width(pos: int, width: i32)
    requires
        0 <= width,
        i32::MIN <= pos && pos + width <= i32::MAX,
    ensures
        ({
            let a = anchored(pos, width);
            &&& a.min == pos
            &&& a.max - a.min == width && a.width == width
            &&& a.max - a.centre == a.centre - a.min || a.max - a.centre == a.centre - a.min + 1
        }),
{
}

/// A pad that starts where another ends, or beyond, is not reached by it; any closer, it must move by
/// what it is reached before it starts there.
pub proof fn law_reach_is_what_parts_them(a: Anchor, b: Anchor, by: int)
    requires
        by >= 0,
    ensures
        reach(a, b) >= 0,
        reach(a, b) <= by <==> b.max <= a.min + by,
{
}

} // verus!
