//! Distributing a list of pads along one side of the ring.
//!
//! One command puts one cell where the caller says. This puts many cells where they will fit, spread
//! evenly, sliding each one clear of whatever is already there. The caller supplies a conflict test
//! and receives placements.

use crate::clearance::{refusal_view, Refusal, RefusalView};
use crate::geom::{fits_i32, half, rt, Rect};
use crate::orient::Orient;
use crate::place::{
    nearest_site, oriented_size, place_in_row, placement_views, quarter, site_at, spot, Edge,
    Placement, PlacementView, RowGeom,
};
use crate::single::{lemma_exact_quotient, lemma_lesser_of_short, lemma_whole_stays, Single};
use crate::sort::{arrange, arranged, compares, law_arranged_same, orders};
use vstd::prelude::*;

verus! {

/// A row seen as a one-dimensional track: a start, an end, and a site granularity.
#[derive(Debug)]
pub struct Track {
    pub row: RowGeom,
    pub edge: Edge,
    /// The smaller of the site's two sides: the granularity spacing is rounded down to.
    pub site_width: i32,
}

impl Clone for Track {
    fn clone(&self) -> (copy: Track)
        ensures
            copy == *self,
    {
        Track { row: self.row.clone(), edge: self.edge, site_width: self.site_width }
    }
}

/// A rectangle's extent along a row.
pub open spec fn extent(across: bool, r: (int, int, int, int)) -> (int, int) {
    if across {
        (r.0, r.2)
    } else {
        (r.1, r.3)
    }
}

impl Track {
    pub open spec fn from(self) -> int {
        extent(self.edge.across(), rt(self.row.bbox)).0
    }

    pub open spec fn to(self) -> int {
        extent(self.edge.across(), rt(self.row.bbox)).1
    }

    pub open spec fn origin(self) -> int {
        if self.edge.across() {
            self.row.origin.0 as int
        } else {
            self.row.origin.1 as int
        }
    }

    /// The site nearest a position along the row.
    pub open spec fn site(self, location: int) -> int {
        site_at(location - self.origin(), self.row.spacing as int, self.row.site_count as int)
    }

    /// Whether the row runs left-to-right.
    pub fn horizontal(&self) -> (b: bool)
        ensures
            b == self.edge.across(),
    {
        self.edge.is_horizontal()
    }

    /// A rectangle's extent along the row's own length.
    pub fn along(&self, r: Rect) -> (e: (i32, i32))
        ensures
            (e.0 as int, e.1 as int) == extent(self.edge.across(), rt(r)),
    {
        if self.horizontal() {
            (r.0, r.2)
        } else {
            (r.1, r.3)
        }
    }

    /// Where the row starts.
    pub fn start(&self) -> (s: i32)
        ensures
            s == self.from(),
    {
        self.along(self.row.bbox).0
    }

    /// Where the row ends.
    pub fn end(&self) -> (e: i32)
        ensures
            e == self.to(),
    {
        self.along(self.row.bbox).1
    }

    /// How long the row is.
    pub fn width(&self) -> (w: i32)
        requires
            fits_i32(self.to() - self.from()),
        ensures
            w == self.to() - self.from(),
    {
        (self.end() as i64 - self.start() as i64) as i32
    }

    /// The site index nearest a position along the row.
    ///
    /// Returns an index, not a coordinate. Rounds to nearest, and clamps into the row: a position
    /// before the row start gives site 0 rather than a negative index.
    pub fn snap_to_site(&self, location: i32) -> (index: i32)
        requires
            self.row.site_count >= 0,
        ensures
            index == self.site(location as int),
            0 <= index <= self.row.site_count,
    {
        self.snap(location as i128)
    }

    pub(crate) fn snap(&self, location: i128) -> (index: i32)
        requires
            self.row.site_count >= 0,
            -0x1000_0000_0000_0000_0000_0000_0000 <= location <= 0x1000_0000_0000_0000_0000_0000_0000,
        ensures
            index == self.site(location as int),
            0 <= index <= self.row.site_count,
    {
        let origin: i32 = if self.horizontal() { self.row.origin.0 } else { self.row.origin.1 };
        nearest_site(location - origin as i128, self.row.spacing, self.row.site_count)
    }

    /// The position of a site.
    pub fn index_to_pos(&self, index: i32) -> (p: i32)
        requires
            fits_i32(self.origin() + index * self.row.spacing),
        ensures
            p == self.origin() + index * self.row.spacing,
    {
        let origin: i32 = if self.horizontal() { self.row.origin.0 } else { self.row.origin.1 };
        let (i, s): (i64, i64) = (index as i64, self.row.spacing as i64);
        assert(-0x4000_0000_0000_0000 <= i * s <= 0x4000_0000_0000_0000) by (nonlinear_arith)
            requires
                -0x8000_0000 <= i <= 0x8000_0000,
                -0x8000_0000 <= s <= 0x8000_0000,
        ;
        (origin as i64 + i * s) as i32
    }
}

/// A site's position snaps back to the site.
pub proof fn law_position_snaps_back(t: Track, index: int)
    requires
        t.row.spacing > 0,
        0 <= index <= t.row.site_count,
    ensures
        t.site(t.origin() + index * t.row.spacing) == index,
{
    let s = t.row.spacing as int;
    let n = index * s;
    assert(n >= 0) by (nonlinear_arith)
        requires
            n == index * s,
            index >= 0,
            s > 0,
    ;
    assert(2 * n + s == (2 * s) * index + s) by (nonlinear_arith)
        requires
            n == index * s,
    ;
    vstd::arithmetic::div_mod::lemma_fundamental_div_mod_converse(2 * n + s, 2 * s, index, s);
}

/// A pad waiting to be placed. `size` is the master's own width and height, unrotated.
#[derive(Debug, PartialEq, Eq)]
pub struct Pad {
    pub name: String,
    pub master: String,
    pub size: (i32, i32),
}

impl Clone for Pad {
    fn clone(&self) -> (copy: Pad)
        ensures
            copy == *self,
    {
        Pad { name: self.name.clone(), master: self.master.clone(), size: self.size }
    }
}

/// Why a pad could not be placed. Either is fatal to the whole command.
#[derive(Debug, PartialEq, Eq)]
pub enum Refused {
    /// The cell ran off the end of the row.
    OutOfRow { name: String, at: Rect },
    /// The cell hit something and shifting could not clear it. Carries where it was tried.
    Blocked { name: String, at: Rect, why: Refusal },
}

/// What a refusal to place is.
pub enum RefusedView {
    OutOfRow { name: Seq<char>, at: (int, int, int, int) },
    Blocked { name: Seq<char>, at: (int, int, int, int), why: RefusalView },
}

impl View for Refused {
    type V = RefusedView;

    open spec fn view(&self) -> RefusedView {
        match self {
            Refused::OutOfRow { name, at } => RefusedView::OutOfRow { name: name@, at: rt(*at) },
            Refused::Blocked { name, at, why } => RefusedView::Blocked {
                name: name@,
                at: rt(*at),
                why: why@,
            },
        }
    }
}

impl Clone for Refused {
    fn clone(&self) -> (copy: Refused)
        ensures
            copy@ == self@,
    {
        match self {
            Refused::OutOfRow { name, at } => Refused::OutOfRow { name: name.clone(), at: *at },
            Refused::Blocked { name, at, why } => Refused::Blocked {
                name: name.clone(),
                at: *at,
                why: why.clone(),
            },
        }
    }
}

/// How much of a row's length a pad consumes: a quarter turn swaps its width and height.
pub open spec fn length_of(t: Track, size: (i32, i32)) -> int {
    if quarter(t.row.orient) == t.edge.across() {
        size.1 as int
    } else {
        size.0 as int
    }
}

/// How much of the row's length a pad consumes.
///
/// Measured after the row's own orientation, because a row turned on its side swaps the master's
/// width and height.
pub fn pad_width(t: &Track, size: (i32, i32)) -> (w: i32)
    ensures
        w == length_of(*t, size),
{
    let (dx, dy) = oriented_size(size.0, size.1, t.row.orient);
    if t.horizontal() {
        dx
    } else {
        dy
    }
}

/// How much of the row's length the pads consume together.
pub open spec fn total_length(t: Track, pads: Seq<Pad>) -> int
    decreases pads.len(),
{
    if pads.len() == 0 {
        0
    } else {
        total_length(t, pads.drop_last()) + length_of(t, pads.last().size)
    }
}

fn sum_lengths(t: &Track, pads: &[Pad]) -> (total: i128)
    ensures
        total == total_length(*t, pads@),
        -0x8000_0000 * pads.len() <= total <= 0x8000_0000 * pads.len(),
{
    let mut total: i128 = 0;
    let mut i: usize = 0;
    assert(pads@.take(0) =~= Seq::<Pad>::empty());
    while i < pads.len()
        invariant
            i <= pads.len(),
            total == total_length(*t, pads@.take(i as int)),
            -0x8000_0000 * i <= total <= 0x8000_0000 * i,
        decreases pads.len() - i,
    {
        assert(pads@.take(i + 1).drop_last() =~= pads@.take(i as int));
        total = total + pad_width(t, pads[i].size) as i128;
        i += 1;
    }
    assert(pads@.take(pads@.len() as int) =~= pads@);
    total
}

/// The gap between neighbouring pads: the leftover room split evenly, capped, and rounded down to a
/// whole site, in single precision.
pub open spec fn gap(t: Track, pads: Seq<Pad>, max_spacing: Option<i32>) -> int {
    let room = t.to() - t.from() - total_length(t, pads);
    let even = Single::of_int(room).over(Single::of_int(pads.len() as int + 1));
    let ideal = match max_spacing {
        Some(m) => even.lesser(Single::of_int(m as int)),
        None => even,
    };
    if t.site_width <= 0 {
        ideal.truncated(i32::MIN as int, i32::MAX as int)
    } else {
        ideal.over(Single::of_int(t.site_width as int)).floored(i32::MIN as int, i32::MAX as int)
            * t.site_width
    }
}

fn gap_wide(t: &Track, pads: &[Pad], max_spacing: Option<i32>) -> (s: i64)
    requires
        fits_i32(t.to() - t.from() - total_length(*t, pads@)),
        pads.len() < usize::MAX,
    ensures
        s == gap(*t, pads@, max_spacing),
{
    let total: i128 = sum_lengths(t, pads);
    let room: i64 = (t.end() as i128 - t.start() as i128 - total) as i64;
    let even = Single::from_int(room).divide(Single::from_count(pads.len() + 1));
    let ideal = match max_spacing {
        Some(m) => even.min(Single::from_int(m as i64)),
        None => even,
    };
    if t.site_width <= 0 {
        return ideal.to_i32() as i64;
    }
    let (k, w): (i64, i64) = (
        ideal.divide(Single::from_int(t.site_width as i64)).floor_to_i32() as i64,
        t.site_width as i64,
    );
    assert(-0x4000_0000_0000_0000 <= k * w <= 0x4000_0000_0000_0000) by (nonlinear_arith)
        requires
            -0x8000_0000 <= k <= 0x8000_0000,
            0 <= w <= 0x8000_0000,
    ;
    k * w
}

/// The gap left between neighbouring pads.
///
/// The leftover room split evenly into one more gap than there are pads (a gap before the first and
/// after the last as well as between), then rounded down to a whole site. Computed in single
/// precision: at ring dimensions the values run past its significand, so the rounding is observable.
pub fn target_spacing(t: &Track, pads: &[Pad], max_spacing: Option<i32>) -> (s: i32)
    requires
        fits_i32(t.to() - t.from() - total_length(*t, pads@)),
        pads.len() < usize::MAX,
        fits_i32(gap(*t, pads@, max_spacing)),
    ensures
        s == gap(*t, pads@, max_spacing),
{
    gap_wide(t, pads, max_spacing) as i32
}

/// The room beside the pads, and the gap between them, are machine numbers.
pub open spec fn has_gap(t: Track, pads: Seq<Pad>, max_spacing: Option<i32>) -> bool {
    fits_i32(t.to() - t.from() - total_length(t, pads)) && fits_i32(gap(t, pads, max_spacing))
}

/// Whether the room beside the pads, and the gap between them, are machine numbers.
pub fn gap_fits(t: &Track, pads: &[Pad], max_spacing: Option<i32>) -> (yes: bool)
    requires
        pads.len() < usize::MAX,
    ensures
        yes == has_gap(*t, pads@, max_spacing),
{
    let room: i128 = t.end() as i128 - t.start() as i128 - sum_lengths(t, pads);
    if room < i32::MIN as i128 || room > i32::MAX as i128 {
        return false;
    }
    let s: i64 = gap_wide(t, pads, max_spacing);
    i32::MIN as i64 <= s && s <= i32::MAX as i64
}

/// The gap is a whole number of sites.
pub proof fn law_gap_is_whole_sites(t: Track, pads: Seq<Pad>, max_spacing: Option<i32>)
    requires
        t.site_width > 0,
    ensures
        gap(t, pads, max_spacing) % (t.site_width as int) == 0,
{
    let room = t.to() - t.from() - total_length(t, pads);
    let even = Single::of_int(room).over(Single::of_int(pads.len() as int + 1));
    let ideal = match max_spacing {
        Some(m) => even.lesser(Single::of_int(m as int)),
        None => even,
    };
    let k = ideal.over(Single::of_int(t.site_width as int)).floored(
        i32::MIN as int,
        i32::MAX as int,
    );
    vstd::arithmetic::div_mod::lemma_mod_multiples_basic(k, t.site_width as int);
}

/// The box of a pad at a site of the row.
pub open spec fn box_at(t: Track, index: int, size: (i32, i32), base: Orient) -> (
    int,
    int,
    int,
    int,
) {
    let p = spot(index, t.row, t.edge, size.0 as int, size.1 as int, base);
    let (dx, dy) = if quarter(base.composed(t.row.orient)) {
        (size.1, size.0)
    } else {
        (size.0, size.1)
    };
    (p.0, p.1, p.0 + dx, p.1 + dy)
}

pub open spec fn fits_box(r: (int, int, int, int)) -> bool {
    fits_i32(r.0) && fits_i32(r.1) && fits_i32(r.2) && fits_i32(r.3)
}

/// The box reaches beyond the row.
pub open spec fn off_row(t: Track, r: (int, int, int, int)) -> bool {
    extent(t.edge.across(), r).0 < t.from() || extent(t.edge.across(), r).1 > t.to()
}

/// A pad and how it is to be placed.
pub struct Request {
    pub name: Seq<char>,
    pub master: Seq<char>,
    pub size: (i32, i32),
    pub base: Orient,
    pub allow_overlap: bool,
    pub allow_shift: bool,
}

/// A pad placed at a site.
pub open spec fn placed_at(t: Track, r: Request, index: int) -> PlacementView {
    let p = spot(index, t.row, t.edge, r.size.0 as int, r.size.1 as int, r.base);
    PlacementView {
        name: r.name,
        master: r.master,
        x: p.0,
        y: p.1,
        orient: r.base.composed(t.row.orient),
    }
}

/// What the conflict test says of a pad at a site.
pub open spec fn verdict(
    t: Track,
    r: Request,
    index: int,
    conflict: spec_fn(Seq<char>, Rect, Orient) -> Option<RefusalView>,
) -> Option<RefusalView> {
    let b = box_at(t, index, r.size, r.base);
    conflict(
        r.name,
        (b.0 as i32, b.1 as i32, b.2 as i32, b.3 as i32),
        r.base.composed(t.row.orient),
    )
}

/// The site a pad slides to from a conflict: where the overlap starts, but always onwards.
pub open spec fn onwards(t: Track, index: int, why: RefusalView) -> int {
    let to = t.site(extent(t.edge.across(), rt(why.overlap)).0);
    if index + 1 > to {
        index + 1
    } else {
        to
    }
}

/// A pad placed at a site, or at the first one it can slide to.
pub open spec fn slid(
    t: Track,
    r: Request,
    index: int,
    conflict: spec_fn(Seq<char>, Rect, Orient) -> Option<RefusalView>,
) -> Result<PlacementView, RefusedView>
    decreases i32::MAX - index,
{
    let at = box_at(t, index, r.size, r.base);
    if !r.allow_overlap && off_row(t, at) {
        Err(RefusedView::OutOfRow { name: r.name, at })
    } else {
        match verdict(t, r, index, conflict) {
            None => Ok(placed_at(t, r, index)),
            Some(why) => {
                if r.allow_shift && onwards(t, index, why) <= i32::MAX {
                    slid(t, r, onwards(t, index, why), conflict)
                } else if r.allow_overlap {
                    Ok(placed_at(t, r, index))
                } else {
                    Err(RefusedView::Blocked { name: r.name, at, why })
                }
            },
        }
    }
}

/// The pad stands at a site of the row, in a box within machine coordinates.
pub open spec fn stands_in(t: Track, r: Request, p: PlacementView) -> bool {
    exists|i: int|
        p == placed_at(t, r, i) && fits_box(#[trigger] box_at(t, i, r.size, r.base))
}

/// The conflict test can be asked about any box.
pub open spec fn total_conflict<C: FnMut(&str, Rect, Orient) -> Option<Refusal>>(c: C) -> bool {
    forall|n: &str, b: Rect, o: Orient| #[trigger] c.requires((n, b, o))
}

/// The conflict test's answers are those of a rule.
pub open spec fn follows_conflict<C: FnMut(&str, Rect, Orient) -> Option<Refusal>>(
    c: C,
    rule: spec_fn(Seq<char>, Rect, Orient) -> Option<RefusalView>,
) -> bool {
    forall|n: &str, b: Rect, o: Orient, r: Option<Refusal>| #[trigger]
        c.ensures((n, b, o), r) ==> refusal_view(r) == rule(n@, b, o)
}

/// A pad can be slid along from a site: its box there is within machine coordinates, and so is the
/// box at every site that an answer of the conflict test sends it on to.
pub open spec fn can_slide<C: FnMut(&str, Rect, Orient) -> Option<Refusal>>(
    t: Track,
    r: Request,
    index: int,
    c: C,
) -> bool
    decreases i32::MAX - index,
{
    let b = box_at(t, index, r.size, r.base);
    let at: Rect = (b.0 as i32, b.1 as i32, b.2 as i32, b.3 as i32);
    &&& fits_box(b)
    &&& {
        ||| !r.allow_overlap && off_row(t, b)
        ||| !r.allow_shift
        ||| forall|n: &str, answer: Option<Refusal>|
            n@ == r.name && #[trigger] c.ensures(
                (n, at, r.base.composed(t.row.orient)),
                answer,
            ) ==> (answer matches Some(why) ==> onwards(t, index, why@) <= i32::MAX && can_slide(
                t,
                r,
                onwards(t, index, why@),
                c,
            ))
    }
}

/// An answer that the conflict test may give about a pad at a site.
pub open spec fn answers<C: FnMut(&str, Rect, Orient) -> Option<Refusal>>(
    t: Track,
    r: Request,
    index: int,
    c: C,
    answer: Option<Refusal>,
) -> bool {
    let b = box_at(t, index, r.size, r.base);
    let at: Rect = (b.0 as i32, b.1 as i32, b.2 as i32, b.3 as i32);
    exists|n: &str|
        n@ == r.name && #[trigger] c.ensures((n, at, r.base.composed(t.row.orient)), answer)
}

/// A pad that starts at a site may end so, whatever the conflict test answers each time it is asked:
/// off the row it is refused unasked, and otherwise one answer decides, by which it lands, is blocked
/// or moves on to be asked about again.
pub open spec fn may_end<C: FnMut(&str, Rect, Orient) -> Option<Refusal>>(
    t: Track,
    r: Request,
    index: int,
    c: C,
    end: Result<PlacementView, RefusedView>,
) -> bool
    decreases i32::MAX - index,
{
    let at = box_at(t, index, r.size, r.base);
    if !r.allow_overlap && off_row(t, at) {
        end == Err::<PlacementView, RefusedView>(RefusedView::OutOfRow { name: r.name, at })
    } else {
        exists|answer: Option<Refusal>| #[trigger]
            answers(t, r, index, c, answer) && match answer {
                None => end == Ok::<PlacementView, RefusedView>(placed_at(t, r, index)),
                Some(why) => if r.allow_shift {
                    onwards(t, index, why@) <= i32::MAX && may_end(
                        t,
                        r,
                        onwards(t, index, why@),
                        c,
                        end,
                    )
                } else if r.allow_overlap {
                    end == Ok::<PlacementView, RefusedView>(placed_at(t, r, index))
                } else {
                    end == Err::<PlacementView, RefusedView>(
                        RefusedView::Blocked { name: r.name, at, why: why@ },
                    )
                },
            }
    }
}

/// The pad lies in the row, at the site given or a later one, in a box that the conflict test accepted.
pub open spec fn lands_clear<C: FnMut(&str, Rect, Orient) -> Option<Refusal>>(
    t: Track,
    r: Request,
    index: int,
    c: C,
    p: PlacementView,
) -> bool {
    exists|i: int|
        i >= index && p == placed_at(t, r, i) && !off_row(
            t,
            #[trigger] box_at(t, i, r.size, r.base),
        ) && answers(t, r, i, c, None)
}

/// What was returned, as values.
pub open spec fn end_of(r: Result<Placement, Refused>) -> Result<PlacementView, RefusedView> {
    match r {
        Ok(p) => Ok(p@),
        Err(e) => Err(e@),
    }
}

/// What is returned is what is owed.
pub open spec fn placed_as(
    r: Result<Placement, Refused>,
    want: Result<PlacementView, RefusedView>,
) -> bool {
    match (r, want) {
        (Ok(p), Ok(v)) => p@ == v,
        (Err(e), Err(v)) => e@ == v,
        _ => false,
    }
}

fn make_placement(pad: &Pad, x: i32, y: i32, orient: Orient) -> (p: Placement)
    ensures
        p@ == (PlacementView {
            name: pad.name@,
            master: pad.master@,
            x: x as int,
            y: y as int,
            orient,
        }),
{
    Placement { name: pad.name.clone(), master: pad.master.clone(), x, y, orient }
}

/// Place one pad at a site index, sliding it along if something is in the way.
///
/// `conflict` is asked about a candidate box and returns where the overlap is. With `allow_shift`,
/// the pad moves to the site at the start of that overlap and is asked again; `index + 1` guarantees
/// the loop advances even when the overlap begins behind the pad.
///
/// A test that gives one answer to one question fixes the result; of one whose answers change, the
/// result is what its answers in this walk lead to.
pub fn place_one<C: FnMut(&str, Rect, Orient) -> Option<Refusal>>(
    t: &Track,
    index: i32,
    pad: &Pad,
    base: Orient,
    allow_overlap: bool,
    allow_shift: bool,
    conflict: &mut C,
) -> (r: Result<Placement, Refused>)
    requires
        total_conflict(*old(conflict)),
        allow_shift ==> t.row.site_count >= 0,
        can_slide(
            *t,
            request(*pad, base, allow_overlap, allow_shift),
            index as int,
            *old(conflict),
        ),
    ensures
        *final(conflict) == *old(conflict),
        forall|rule: spec_fn(Seq<char>, Rect, Orient) -> Option<RefusalView>| #[trigger]
            follows_conflict(*old(conflict), rule) ==> placed_as(
                r,
                slid(
                    *t,
                    request(*pad, base, allow_overlap, allow_shift),
                    index as int,
                    rule,
                ),
            ),
        may_end(
            *t,
            request(*pad, base, allow_overlap, allow_shift),
            index as int,
            *old(conflict),
            end_of(r),
        ),
        r matches Ok(p) ==> stands_in(*t, request(*pad, base, allow_overlap, allow_shift), p@),
        r matches Ok(p) ==> !allow_overlap ==> lands_clear(
            *t,
            request(*pad, base, allow_overlap, allow_shift),
            index as int,
            *old(conflict),
            p@,
        ),
        r matches Err(Refused::Blocked { name, at, why }) ==> {
            &&& !allow_overlap && !allow_shift
            &&& name@ == pad.name@
            &&& rt(at) == box_at(*t, index as int, pad.size, base)
            &&& !off_row(*t, rt(at))
            &&& answers(
                *t,
                request(*pad, base, allow_overlap, allow_shift),
                index as int,
                *old(conflict),
                Some(why),
            )
        },
        r matches Err(Refused::OutOfRow { name, at }) ==> {
            &&& !allow_overlap
            &&& name@ == pad.name@
            &&& off_row(*t, rt(at))
            &&& exists|i: int|
                i >= index && rt(at) == #[trigger] box_at(*t, i, pad.size, base)
        },
{
    let ghost req = request(*pad, base, allow_overlap, allow_shift);
    let mut site: i32 = index;
    loop
        invariant
            index <= site,
            total_conflict(*conflict),
            *conflict == *old(conflict),
            allow_shift ==> 0 <= t.row.site_count,
            req == request(*pad, base, allow_overlap, allow_shift),
            can_slide(*t, req, site as int, *conflict),
            !allow_shift ==> site == index,
            forall|end: Result<PlacementView, RefusedView>| #[trigger]
                may_end(*t, req, site as int, *conflict, end) ==> may_end(
                    *t,
                    req,
                    index as int,
                    *conflict,
                    end,
                ),
            forall|rule: spec_fn(Seq<char>, Rect, Orient) -> Option<RefusalView>| #[trigger]
                follows_conflict(*conflict, rule) ==> slid(*t, req, index as int, rule) == slid(
                    *t,
                    req,
                    site as int,
                    rule,
                ),
        decreases i32::MAX - site,
    {
        let ghost b = box_at(*t, site as int, pad.size, base);
        assert(fits_box(b));
        let (x, y, orient) = place_in_row(site, &t.row, t.edge, pad.size.0, pad.size.1, base);
        let (dx, dy) = oriented_size(pad.size.0, pad.size.1, orient);
        let bbox: Rect = (x, y, (x as i64 + dx as i64) as i32, (y as i64 + dy as i64) as i32);
        assert(rt(bbox) == b);
        if !allow_overlap {
            let (lo, hi) = t.along(bbox);
            if lo < t.start() || hi > t.end() {
                let end: Result<Placement, Refused> = Err(
                    Refused::OutOfRow { name: pad.name.clone(), at: bbox },
                );
                assert(may_end(*t, req, site as int, *conflict, end_of(end)));
                return end;
            }
        }
        let answer = conflict(pad.name.as_str(), bbox, orient);
        assert(answers(*t, req, site as int, *conflict, answer));
        match answer {
            None => {
                let end: Result<Placement, Refused> = Ok(make_placement(pad, x, y, orient));
                assert(may_end(*t, req, site as int, *conflict, end_of(end)));
                return end;
            },
            Some(why) => {
                if !allow_shift {
                    let end: Result<Placement, Refused> = if allow_overlap {
                        Ok(make_placement(pad, x, y, orient))
                    } else {
                        Err(Refused::Blocked { name: pad.name.clone(), at: bbox, why })
                    };
                    assert(may_end(*t, req, site as int, *conflict, end_of(end)));
                    return end;
                }
                let obstacle: i32 = t.along(why.overlap).0;
                let to: i32 = t.snap_to_site(obstacle);
                assert(onwards(*t, site as int, why@) <= i32::MAX);
                let next: i32 = if site >= to { site + 1 } else { to };
                assert(next == onwards(*t, site as int, why@));
                assert forall|end: Result<PlacementView, RefusedView>| #[trigger]
                    may_end(*t, req, next as int, *conflict, end) implies may_end(
                    *t,
                    req,
                    index as int,
                    *conflict,
                    end,
                ) by {
                    assert(answers(*t, req, site as int, *conflict, Some(why)));
                    assert(may_end(*t, req, site as int, *conflict, end));
                }
                site = next;
            },
        }
    }
}

/// A pad that may not overlap lands inside the row, where nothing is in its way, and no earlier than
/// it was meant to.
pub proof fn law_placed_is_clear(
    t: Track,
    r: Request,
    index: int,
    conflict: spec_fn(Seq<char>, Rect, Orient) -> Option<RefusalView>,
)
    requires
        !r.allow_overlap,
        slid(t, r, index, conflict) is Ok,
    ensures
        exists|i: int|
            i >= index && slid(t, r, index, conflict)->Ok_0 == placed_at(t, r, i) && !off_row(
                t,
                #[trigger] box_at(t, i, r.size, r.base),
            ) && verdict(t, r, i, conflict) is None,
    decreases i32::MAX - index,
{
    let b = box_at(t, index, r.size, r.base);
    assert(!off_row(t, b));
    if let Some(why) = verdict(t, r, index, conflict) {
        let next = onwards(t, index, why);
        law_placed_is_clear(t, r, next, conflict);
        let i = choose|i: int|
            i >= next && slid(t, r, next, conflict)->Ok_0 == placed_at(t, r, i) && !off_row(
                t,
                #[trigger] box_at(t, i, r.size, r.base),
            ) && verdict(t, r, i, conflict) is None;
        assert(i >= index && !off_row(t, box_at(t, i, r.size, r.base)));
    }
}

/// What is asked of a pad.
pub open spec fn request(
    pad: Pad,
    base: Orient,
    allow_overlap: bool,
    allow_shift: bool,
) -> Request {
    Request {
        name: pad.name@,
        master: pad.master@,
        size: pad.size,
        base,
        allow_overlap,
        allow_shift,
    }
}

/// Where a pad is meant to go: past the pads before it and a gap for each. Where those pads really
/// landed has no part in it.
pub open spec fn cursor(t: Track, before: Seq<Pad>, spacing: int) -> int {
    t.from() + spacing + total_length(t, before) + before.len() * spacing
}

/// The pads spread along the row in the order given, as far as the first that is refused.
pub open spec fn spread(
    t: Track,
    pads: Seq<Pad>,
    spacing: int,
    conflict: spec_fn(Seq<char>, Rect, Orient) -> Option<RefusalView>,
) -> Result<Seq<PlacementView>, RefusedView>
    decreases pads.len(),
{
    if pads.len() == 0 {
        Ok(Seq::empty())
    } else {
        let head = pads.drop_last();
        match spread(t, head, spacing, conflict) {
            Err(e) => Err(e),
            Ok(list) => match slid(
                t,
                request(pads.last(), Orient::R0, false, true),
                t.site(cursor(t, head, spacing)),
                conflict,
            ) {
                Ok(p) => Ok(list.push(p)),
                Err(e) => Err(e),
            },
        }
    }
}

/// What is returned is what is owed.
pub open spec fn spread_as(
    r: Result<Vec<Placement>, Refused>,
    want: Result<Seq<PlacementView>, RefusedView>,
) -> bool {
    match (r, want) {
        (Ok(list), Ok(views)) => placement_views(list@) == views,
        (Err(e), Err(v)) => e@ == v,
        _ => false,
    }
}

/// The first pad that is refused decides.
proof fn lemma_spread_error(
    t: Track,
    pads: Seq<Pad>,
    spacing: int,
    conflict: spec_fn(Seq<char>, Rect, Orient) -> Option<RefusalView>,
    k: int,
    e: RefusedView,
)
    requires
        0 <= k <= pads.len(),
        spread(t, pads.take(k), spacing, conflict) == Err::<Seq<PlacementView>, RefusedView>(e),
    ensures
        spread(t, pads, spacing, conflict) == Err::<Seq<PlacementView>, RefusedView>(e),
    decreases pads.len() - k,
{
    if k < pads.len() {
        assert(pads.take(k + 1).drop_last() =~= pads.take(k));
        lemma_spread_error(t, pads, spacing, conflict, k + 1, e);
    } else {
        assert(pads.take(k) =~= pads);
    }
}

/// The pad `k` can be walked along the row from where it is meant to go.
pub open spec fn can_walk<C: FnMut(&str, Rect, Orient) -> Option<Refusal>>(
    t: Track,
    pads: Seq<Pad>,
    k: int,
    spacing: int,
    c: C,
) -> bool {
    can_slide(
        t,
        request(pads[k], Orient::R0, false, true),
        t.site(cursor(t, pads.take(k), spacing)),
        c,
    )
}

/// Each of the placements was handed over.
pub open spec fn handed_over<S: FnMut(&Placement)>(settled: S, list: Seq<Placement>) -> bool {
    forall|k: int| 0 <= k < list.len() ==> settled.ensures((&#[trigger] list[k],), ())
}

/// Where pad `k` may end, from where it is meant to go on.
pub open spec fn may_end_in_turn<C: FnMut(&str, Rect, Orient) -> Option<Refusal>>(
    t: Track,
    pads: Seq<Pad>,
    spacing: int,
    c: C,
    k: int,
    end: Result<PlacementView, RefusedView>,
) -> bool {
    may_end(
        t,
        request(pads[k], Orient::R0, false, true),
        t.site(cursor(t, pads.take(k), spacing)),
        c,
        end,
    )
}

/// Each of the pads listed lies in the row, at the site it was meant for or a later one, in a box that
/// the conflict test accepted.
pub open spec fn land_in_turn<C: FnMut(&str, Rect, Orient) -> Option<Refusal>>(
    t: Track,
    pads: Seq<Pad>,
    spacing: int,
    c: C,
    list: Seq<Placement>,
) -> bool {
    forall|k: int|
        0 <= k < list.len() ==> lands_clear(
            t,
            request(pads[k], Orient::R0, false, true),
            t.site(cursor(t, pads.take(k), spacing)),
            c,
            (#[trigger] list[k])@,
        ) && may_end_in_turn(t, pads, spacing, c, k, Ok(list[k]@))
}

/// Pad `k` slid off the row.
pub open spec fn slides_off<C: FnMut(&str, Rect, Orient) -> Option<Refusal>>(
    t: Track,
    pads: Seq<Pad>,
    spacing: int,
    c: C,
    k: int,
    e: RefusedView,
) -> bool {
    &&& 0 <= k < pads.len()
    &&& e matches RefusedView::OutOfRow { name, at } && name == pads[k].name@ && off_row(t, at)
    &&& may_end_in_turn(t, pads, spacing, c, k, Err(e))
}

/// The pads before `k` landed as listed, and each was handed over.
pub open spec fn landed_before<
    C: FnMut(&str, Rect, Orient) -> Option<Refusal>,
    S: FnMut(&Placement),
>(
    t: Track,
    pads: Seq<Pad>,
    spacing: int,
    c: C,
    settled: S,
    k: int,
    list: Seq<Placement>,
) -> bool {
    &&& 0 <= k == list.len() <= pads.len()
    &&& handed_over(settled, list)
    &&& land_in_turn(t, pads, spacing, c, list)
    &&& forall|rule: spec_fn(Seq<char>, Rect, Orient) -> Option<RefusalView>| #[trigger]
        follows_conflict(c, rule) ==> spread(t, pads.take(k), spacing, rule) == Ok::<
            Seq<PlacementView>,
            RefusedView,
        >(placement_views(list))
}

/// Spread every pad along the row, in the order given.
///
/// The running cursor advances by the pad's width and the target spacing, not by where the pad
/// actually landed. A pad that had to slide does not push its neighbours along: one obstruction does
/// not drag the whole row out of position.
///
/// `settled` is called as each pad lands, before the next is tried: a pad already placed is an
/// obstruction to the pads after it, and the caller is what holds that list. A conflict test whose
/// answers do not change between calls fixes the placements; one whose answers change still leaves
/// each pad in a box that it accepted, from where the pad was meant to go on. Where each pad is to
/// join what is in the way of the next, [`crate::along::place_along`] holds the list itself and states
/// what comes of it.
pub fn place_uniform<
    C: FnMut(&str, Rect, Orient) -> Option<Refusal>,
    S: FnMut(&Placement),
>(
    t: &Track,
    pads: &[Pad],
    max_spacing: Option<i32>,
    conflict: &mut C,
    settled: &mut S,
) -> (r: Result<Vec<Placement>, Refused>)
    requires
        fits_i32(t.to() - t.from() - total_length(*t, pads@)),
        pads.len() < usize::MAX,
        fits_i32(gap(*t, pads@, max_spacing)),
        t.row.site_count >= 0,
        forall|k: int|
            0 <= k < pads.len() ==> #[trigger] can_walk(
                *t,
                pads@,
                k,
                gap(*t, pads@, max_spacing),
                *old(conflict),
            ),
        total_conflict(*old(conflict)),
        forall|p: &Placement| #[trigger] (*old(settled)).requires((p,)),
    ensures
        forall|rule: spec_fn(Seq<char>, Rect, Orient) -> Option<RefusalView>| #[trigger]
            follows_conflict(*old(conflict), rule) ==> spread_as(
                r,
                spread(*t, pads@, gap(*t, pads@, max_spacing), rule),
            ),
        r matches Ok(list) ==> list.len() == pads.len() && forall|k: int|
            0 <= k < list@.len() ==> (*old(settled)).ensures((&#[trigger] list@[k],), ()),
        r matches Ok(list) ==> land_in_turn(
            *t,
            pads@,
            gap(*t, pads@, max_spacing),
            *old(conflict),
            list@,
        ),
        r matches Err(e) ==> exists|k: int, list: Seq<Placement>|
            slides_off(
                *t,
                pads@,
                gap(*t, pads@, max_spacing),
                *old(conflict),
                k,
                e@,
            ) && #[trigger] landed_before(
                *t,
                pads@,
                gap(*t, pads@, max_spacing),
                *old(conflict),
                *old(settled),
                k,
                list,
            ),
{
    let spacing: i32 = target_spacing(t, pads, max_spacing);
    let mut at: i128 = t.start() as i128 + spacing as i128;
    let mut out: Vec<Placement> = Vec::new();
    let mut i: usize = 0;
    assert(pads@.take(0) =~= Seq::<Pad>::empty());
    assert(placement_views(out@) =~= Seq::<PlacementView>::empty());
    assert(0 * spacing == 0) by (nonlinear_arith);
    while i < pads.len()
        invariant
            i <= pads.len(),
            t.row.site_count >= 0,
            spacing == gap(*t, pads@, max_spacing),
            at == cursor(*t, pads@.take(i as int), spacing as int),
            -0x1_0000_0000 * (i + 1) <= at <= 0x1_0000_0000 * (i + 1),
            forall|k: int|
                0 <= k < pads.len() ==> #[trigger] can_walk(
                    *t,
                    pads@,
                    k,
                    spacing as int,
                    *conflict,
                ),
            total_conflict(*conflict),
            *conflict == *old(conflict),
            *settled == *old(settled),
            forall|p: &Placement| #[trigger] (*settled).requires((p,)),
            out.len() == i,
            handed_over(*settled, out@),
            land_in_turn(*t, pads@, spacing as int, *conflict, out@),
            forall|rule: spec_fn(Seq<char>, Rect, Orient) -> Option<RefusalView>| #[trigger]
                follows_conflict(*conflict, rule) ==> spread(
                    *t,
                    pads@.take(i as int),
                    spacing as int,
                    rule,
                ) == Ok::<Seq<PlacementView>, RefusedView>(placement_views(out@)),
        decreases pads.len() - i,
    {
        let pad = &pads[i];
        let ghost part = pads@.take(i + 1);
        assert(part.drop_last() =~= pads@.take(i as int));
        let site: i32 = t.snap(at);
        assert(can_walk(*t, pads@, i as int, spacing as int, *conflict));
        match place_one(t, site, pad, Orient::R0, false, true, conflict) {
            Ok(p) => {
                settled(&p);
                let ghost before = placement_views(out@);
                let ghost landed = out@;
                let ghost view = p@;
                out.push(p);
                assert forall|k: int| 0 <= k < out@.len() implies (*settled).ensures(
                    (&#[trigger] out@[k],),
                    (),
                ) by {
                    if k < landed.len() {
                        assert(out@[k] == landed[k]);
                    }
                }
                assert forall|k: int| 0 <= k < out@.len() implies lands_clear(
                    *t,
                    request(pads@[k], Orient::R0, false, true),
                    t.site(cursor(*t, pads@.take(k), spacing as int)),
                    *conflict,
                    (#[trigger] out@[k])@,
                ) && may_end_in_turn(
                    *t,
                    pads@,
                    spacing as int,
                    *conflict,
                    k,
                    Ok(out@[k]@),
                ) by {
                    if k < landed.len() {
                        assert(out@[k] == landed[k]);
                    }
                }
                assert(placement_views(out@) =~= before.push(view));
            },
            Err(e) => {
                assert(slides_off(
                    *t,
                    pads@,
                    spacing as int,
                    *conflict,
                    i as int,
                    e@,
                ));
                assert forall|rule: spec_fn(Seq<char>, Rect, Orient) -> Option<RefusalView>|
                    #[trigger] follows_conflict(*old(conflict), rule) implies spread_as(
                    Err(e),
                    spread(*t, pads@, gap(*t, pads@, max_spacing), rule),
                ) by {
                    lemma_spread_error(*t, pads@, spacing as int, rule, i + 1, e@);
                }
                assert(landed_before(
                    *t,
                    pads@,
                    spacing as int,
                    *old(conflict),
                    *old(settled),
                    i as int,
                    out@,
                ));
                return Err(e);
            },
        }
        assert((i + 1) * spacing == i * spacing + spacing) by (nonlinear_arith);
        at = at + pad_width(t, pad.size) as i128 + spacing as i128;
        i += 1;
    }
    assert(pads@.take(pads@.len() as int) =~= pads@);
    Ok(out)
}

/// Whether the row's length, and that of the pads together, are machine numbers.
pub fn room_fits(t: &Track, pads: &[Pad]) -> (yes: bool)
    ensures
        yes == (fits_i32(total_length(*t, pads@)) && fits_i32(t.to() - t.from())),
{
    let total: i128 = sum_lengths(t, pads);
    let width: i128 = t.end() as i128 - t.start() as i128;
    i32::MIN as i128 <= total && total <= i32::MAX as i128 && i32::MIN as i128 <= width && width
        <= i32::MAX as i128
}

/// Do these pads even fit?
///
/// Checked before anything is placed, so an impossible request fails as a request rather than as a
/// pad that will not go in somewhere near the end of the row.
pub fn fits(t: &Track, pads: &[Pad]) -> (r: Result<(), (i32, i32)>)
    requires
        fits_i32(total_length(*t, pads@)),
        fits_i32(t.to() - t.from()),
    ensures
        r is Ok <==> total_length(*t, pads@) <= t.to() - t.from(),
        r matches Err(e) ==> e.0 == total_length(*t, pads@) && e.1 == t.to() - t.from(),
{
    let total: i128 = sum_lengths(t, pads);
    let width: i32 = t.width();
    if total > width as i128 {
        return Err((total as i32, width));
    }
    Ok(())
}

/// A bump a pad connects to.
#[derive(Debug, PartialEq, Eq)]
pub struct Bump {
    pub terminal: String,
    /// Centre of the bump terminal's bounding box.
    pub centre: (i32, i32),
    pub id: u64,
}

impl Clone for Bump {
    fn clone(&self) -> (copy: Bump)
        ensures
            copy == *self,
    {
        Bump { terminal: self.terminal.clone(), centre: self.centre, id: self.id }
    }
}

/// A pad awaiting bump-aligned placement.
#[derive(Debug, PartialEq, Eq)]
pub struct BumpPad {
    pub name: String,
    pub id: u64,
    /// Size along the row.
    pub width: i32,
    /// Every bump this pad shares a non-supply net with.
    pub bumps: Vec<Bump>,
}

impl Clone for BumpPad {
    fn clone(&self) -> (copy: BumpPad)
        ensures
            copy.name == self.name,
            copy.id == self.id,
            copy.width == self.width,
            copy.bumps@ == self.bumps@,
    {
        let mut bumps: Vec<Bump> = Vec::new();
        let mut i: usize = 0;
        while i < self.bumps.len()
            invariant
                i <= self.bumps.len(),
                bumps@ == self.bumps@.take(i as int),
            decreases self.bumps.len() - i,
        {
            bumps.push(self.bumps[i].clone());
            assert(bumps@ =~= self.bumps@.take(i + 1));
            i += 1;
        }
        assert(bumps@ =~= self.bumps@);
        BumpPad { name: self.name.clone(), id: self.id, width: self.width, bumps }
    }
}

/// The square of the distance from the centre of a pad at `at` to a bump, the other axis pinned to
/// the row's centre line.
pub open spec fn bump_distance(
    at: int,
    width: int,
    bump: (i32, i32),
    row_centre: (i32, i32),
    horizontal: bool,
) -> int {
    let c = at + half(width);
    let (dx, dy) = if horizontal {
        (c - bump.0, row_centre.1 - bump.1)
    } else {
        (row_centre.0 - bump.0, c - bump.1)
    };
    dx * dx + dy * dy
}

fn distance_to(
    at: i32,
    width: i32,
    bump: (i32, i32),
    row_centre: (i32, i32),
    horizontal: bool,
) -> (d: i128)
    ensures
        d == bump_distance(at as int, width as int, bump, row_centre, horizontal),
        d >= 0,
{
    let c: i128 = at as i128 + crate::geom::halve(width as i64) as i128;
    let (dx, dy): (i128, i128) = if horizontal {
        (c - bump.0 as i128, row_centre.1 as i128 - bump.1 as i128)
    } else {
        (row_centre.0 as i128 - bump.0 as i128, c - bump.1 as i128)
    };
    assert(0 <= dx * dx <= 0x10_0000_0000_0000_0000 && 0 <= dy * dy <= 0x10_0000_0000_0000_0000)
        by (nonlinear_arith)
        requires
            -0x4_0000_0000 <= dx <= 0x4_0000_0000,
            -0x4_0000_0000 <= dy <= 0x4_0000_0000,
    ;
    dx * dx + dy * dy
}

/// How far a pad sitting at `at` would be from a bump.
///
/// Measured from the pad's centre, `at + width / 2`, across to the bump, with the other axis pinned
/// to the row's centre line. Squared, and squared is enough: it is only ever compared.
pub fn pad_bump_distance(
    at: i32,
    width: i32,
    bump: (i32, i32),
    row_centre: (i32, i32),
    horizontal: bool,
) -> (d: i64)
    requires
        bump_distance(at as int, width as int, bump, row_centre, horizontal) <= i64::MAX,
    ensures
        d == bump_distance(at as int, width as int, bump, row_centre, horizontal),
{
    distance_to(at, width, bump, row_centre, horizontal) as i64
}

/// A bump's column, or row.
pub open spec fn lane(c: (i32, i32), horizontal: bool) -> i32 {
    if horizontal {
        c.0
    } else {
        c.1
    }
}

/// The first bump is preferred to the second: it is nearer, or as near and has the lower id.
pub open spec fn closer(
    p: BumpPad,
    offset: int,
    row_centre: (i32, i32),
    horizontal: bool,
    a: int,
    b: int,
) -> bool {
    let (x, y) = (p.bumps@[a], p.bumps@[b]);
    let da = bump_distance(offset, p.width as int, x.centre, row_centre, horizontal);
    let db = bump_distance(offset, p.width as int, y.centre, row_centre, horizontal);
    da < db || (da == db && x.id < y.id)
}

/// The first of the first `n` bumps that none of them is preferred to.
pub open spec fn nearest_of(
    p: BumpPad,
    offset: int,
    row_centre: (i32, i32),
    horizontal: bool,
    n: int,
) -> int
    decreases n,
{
    if n <= 1 {
        0
    } else {
        let best = nearest_of(p, offset, row_centre, horizontal, n - 1);
        if closer(p, offset, row_centre, horizontal, n - 1, best) {
            n - 1
        } else {
            best
        }
    }
}

/// The nearest bump of a pad.
pub open spec fn nearest_bump(
    p: BumpPad,
    offset: int,
    row_centre: (i32, i32),
    horizontal: bool,
) -> Bump {
    p.bumps@[nearest_of(p, offset, row_centre, horizontal, p.bumps@.len() as int)]
}

/// The run of pads from `k` on, each with its nearest bump, as long as that is in the given column.
pub open spec fn run_from(
    pads: Seq<BumpPad>,
    k: int,
    offset: int,
    row_centre: (i32, i32),
    horizontal: bool,
    column: Option<i32>,
) -> Seq<(usize, Bump)>
    decreases pads.len() - k,
{
    if k < 0 || k >= pads.len() || pads[k].bumps@.len() == 0 {
        Seq::empty()
    } else {
        let best = nearest_bump(pads[k], offset, row_centre, horizontal);
        let here = lane(best.centre, horizontal);
        if column matches Some(c) && c != here {
            Seq::empty()
        } else {
            seq![(k as usize, best)] + run_from(
                pads,
                k + 1,
                offset,
                row_centre,
                horizontal,
                Some(here),
            )
        }
    }
}

fn find_nearest(p: &BumpPad, offset: i32, row_centre: (i32, i32), horizontal: bool) -> (i: usize)
    requires
        p.bumps.len() > 0,
    ensures
        i == nearest_of(*p, offset as int, row_centre, horizontal, p.bumps@.len() as int),
        i < p.bumps.len(),
{
    let mut best: usize = 0;
    let mut d: i128 = distance_to(offset, p.width, p.bumps[0].centre, row_centre, horizontal);
    let mut i: usize = 1;
    while i < p.bumps.len()
        invariant
            1 <= i <= p.bumps.len(),
            best < i,
            best == nearest_of(*p, offset as int, row_centre, horizontal, i as int),
            d == bump_distance(
                offset as int,
                p.width as int,
                p.bumps@[best as int].centre,
                row_centre,
                horizontal,
            ),
        decreases p.bumps.len() - i,
    {
        let e: i128 = distance_to(offset, p.width, p.bumps[i].centre, row_centre, horizontal);
        if e < d || (e == d && p.bumps[i].id < p.bumps[best].id) {
            best = i;
            d = e;
        }
        i += 1;
    }
    best
}

/// The run of pads that share a bump column.
///
/// Walking forward from `start`: each pad takes its nearest bump to the current offset, and the run
/// continues only while that bump lies in the same column (or row) as the first pad's. A pad with no
/// bump at all ends the run rather than being skipped: the run is a contiguous block that will be
/// centred on one bump column, and a pad belonging to no column cannot be in it.
pub fn alignment_group(
    pads: &[BumpPad],
    start: usize,
    offset: i32,
    row_centre: (i32, i32),
    horizontal: bool,
) -> (out: Vec<(usize, Bump)>)
    ensures
        out@ == run_from(pads@, start as int, offset as int, row_centre, horizontal, None),
{
    let mut out: Vec<(usize, Bump)> = Vec::new();
    let mut column: Option<i32> = None;
    let mut k: usize = start;
    let ghost all = run_from(pads@, start as int, offset as int, row_centre, horizontal, None);
    assert(out@ + all =~= all);
    while k < pads.len() && pads[k].bumps.len() > 0
        invariant
            all == run_from(pads@, start as int, offset as int, row_centre, horizontal, None),
            all == out@ + run_from(
                pads@,
                k as int,
                offset as int,
                row_centre,
                horizontal,
                column,
            ),
        decreases pads.len() - k,
    {
        let i: usize = find_nearest(&pads[k], offset, row_centre, horizontal);
        let best = pads[k].bumps[i].clone();
        let here: i32 = if horizontal { best.centre.0 } else { best.centre.1 };
        let ghost rest = run_from(
            pads@,
            k + 1,
            offset as int,
            row_centre,
            horizontal,
            Some(here),
        );
        if let Some(c) = column {
            if c != here {
                assert(out@ + Seq::<(usize, Bump)>::empty() =~= out@);
                return out;
            }
        }
        let ghost before = out@;
        out.push((k, best));
        assert(before + (seq![(k, best)] + rest) =~= out@ + rest);
        column = Some(here);
        k += 1;
    }
    assert(out@ + Seq::<(usize, Bump)>::empty() =~= out@);
    out
}

/// Every pad of a run takes a bump in the first pad's column, and the run has no hole.
pub proof fn law_run_shares_a_column(
    pads: Seq<BumpPad>,
    k: int,
    offset: int,
    row_centre: (i32, i32),
    horizontal: bool,
    column: Option<i32>,
    i: int,
)
    requires
        0 <= k,
        pads.len() <= usize::MAX,
        0 <= i < run_from(pads, k, offset, row_centre, horizontal, column).len(),
    ensures
        ({
            let run = run_from(pads, k, offset, row_centre, horizontal, column);
            &&& run[i].0 == k + i
            &&& column matches Some(c) ==> lane(run[i].1.centre, horizontal) == c
            &&& lane(run[i].1.centre, horizontal) == lane(run[0].1.centre, horizontal)
        }),
    decreases pads.len() - k,
{
    let run = run_from(pads, k, offset, row_centre, horizontal, column);
    let best = nearest_bump(pads[k], offset, row_centre, horizontal);
    let here = lane(best.centre, horizontal);
    let rest = run_from(pads, k + 1, offset, row_centre, horizontal, Some(here));
    assert(run == seq![(k as usize, best)] + rest);
    assert(run[0] == (k as usize, best));
    if i > 0 {
        assert(run[i] == rest[i - 1]);
        law_run_shares_a_column(
            pads,
            k + 1,
            offset,
            row_centre,
            horizontal,
            Some(here),
            i - 1,
        );
    }
}

/// How wide the group's pads are together.
pub open spec fn group_width(pads: Seq<BumpPad>, group: Seq<usize>) -> int
    decreases group.len(),
{
    if group.len() == 0 {
        0
    } else {
        group_width(pads, group.drop_last()) + pads[group.last() as int].width
    }
}

/// The pads of a group.
pub open spec fn members(group: Seq<(usize, Bump)>) -> Seq<usize> {
    Seq::new(group.len(), |i: int| group[i].0)
}

/// The pads of a group in instance id order.
pub open spec fn by_id(pads: Seq<BumpPad>, group: Seq<(usize, Bump)>) -> Seq<usize> {
    arranged(
        members(group),
        |a: usize, b: usize| pads[a as int].id < pads[b as int].id,
    )
}

/// Where a group starts: half its own width before its bump column.
pub open spec fn group_start(
    pads: Seq<BumpPad>,
    group: Seq<(usize, Bump)>,
    horizontal: bool,
) -> int {
    lane(group[0].1.centre, horizontal) - half(group_width(pads, members(group)))
}

fn sum_widths(pads: &[BumpPad], list: &Vec<usize>) -> (total: i128)
    requires
        forall|i: int| 0 <= i < list@.len() ==> (#[trigger] list@[i]) < pads.len(),
    ensures
        total == group_width(pads@, list@),
        -0x8000_0000_0000_0000_0000_0000 <= total <= 0x8000_0000_0000_0000_0000_0000,
{
    let mut total: i128 = 0;
    let mut i: usize = 0;
    assert(list@.take(0) =~= Seq::<usize>::empty());
    while i < list.len()
        invariant
            i <= list.len(),
            forall|i: int| 0 <= i < list@.len() ==> (#[trigger] list@[i]) < pads.len(),
            total == group_width(pads@, list@.take(i as int)),
            -0x8000_0000 * i <= total <= 0x8000_0000 * i,
        decreases list.len() - i,
    {
        assert(list@.take(i + 1).drop_last() =~= list@.take(i as int));
        total = total + pads[list[i]].width as i128;
        i += 1;
    }
    assert(list@.take(list@.len() as int) =~= list@);
    total
}

/// Where each pad of a group goes, before the travel budget is applied.
///
/// The group is centred on its bump column: it starts half its own width before the column and each
/// pad follows the one before. Positions are handed out in instance id order, not row order.
pub fn group_positions(
    pads: &[BumpPad],
    group: &[(usize, Bump)],
    horizontal: bool,
) -> (out: Vec<(usize, i32)>)
    requires
        forall|i: int| 0 <= i < group.len() ==> (#[trigger] group@[i]).0 < pads.len(),
        forall|k: int|
            0 <= k < group.len() ==> fits_i32(
                group_start(pads@, group@, horizontal) + group_width(
                    pads@,
                    #[trigger] by_id(pads@, group@).take(k),
                ),
            ),
    ensures
        out.len() == group.len(),
        forall|k: int| #![trigger out@[k]]
            0 <= k < out.len() ==> out@[k].0 == by_id(pads@, group@)[k] && out@[k].1
                == group_start(pads@, group@, horizontal) + group_width(
                pads@,
                by_id(pads@, group@).take(k),
            ),
{
    let mut out: Vec<(usize, i32)> = Vec::new();
    if group.len() == 0 {
        assert(by_id(pads@, group@).len() == 0);
        return out;
    }
    let mut list: Vec<usize> = Vec::new();
    let mut i: usize = 0;
    while i < group.len()
        invariant
            i <= group.len(),
            list.len() == i,
            forall|i: int| 0 <= i < group.len() ==> (#[trigger] group@[i]).0 < pads.len(),
            forall|k: int| 0 <= k < i ==> #[trigger] list@[k] == group@[k].0,
        decreases group.len() - i,
    {
        list.push(group[i].0);
        i += 1;
    }
    assert(list@ =~= members(group@));
    let ghost rule = |a: usize, b: usize| pads@[a as int].id < pads@[b as int].id;
    let less = |a: usize, b: usize| -> (r: bool)
        requires
            a < pads.len(),
            b < pads.len(),
        ensures
            r == (pads@[a as int].id < pads@[b as int].id),
        { pads[a].id < pads[b].id };
    proof {
        assert forall|x: usize, y: usize| list@.contains(x) && list@.contains(y) implies
            #[trigger] less.requires((x, y)) by {
            let i = choose|i: int| 0 <= i < list@.len() && list@[i] == x;
            let j = choose|j: int| 0 <= j < list@.len() && list@[j] == y;
            assert(list@[i] == group@[i].0 && list@[j] == group@[j].0);
        }
        assert(compares(less, list@));
        assert(orders(less, rule));
    }
    let order = arrange(&list, &less);
    assert forall|i: int| 0 <= i < order@.len() implies (#[trigger] order@[i]) < pads.len() by {
        assert(order@.contains(order@[i]));
        let j = choose|j: int| 0 <= j < list@.len() && list@[j] == order@[i];
        assert(list@[j] == group@[j].0);
    }
    assert forall|i: int| 0 <= i < list@.len() implies (#[trigger] list@[i]) < pads.len() by {
        assert(list@[i] == group@[i].0);
    }
    let total: i128 = sum_widths(pads, &list);
    let column: i32 = if horizontal { group[0].1.centre.0 } else { group[0].1.centre.1 };
    let start: i128 = column as i128 - total / 2;
    assert(start == group_start(pads@, group@, horizontal));
    let mut at: i128 = start;
    let mut k: usize = 0;
    assert(order@.take(0) =~= Seq::<usize>::empty());
    while k < order.len()
        invariant
            k <= order.len(),
            order.len() == group.len(),
            order@ == by_id(pads@, group@),
            out.len() == k,
            start == group_start(pads@, group@, horizontal),
            -0x1_0000_0000_0000_0000_0000_0000 <= start <= 0x1_0000_0000_0000_0000_0000_0000,
            at == start + group_width(pads@, order@.take(k as int)),
            start - 0x8000_0000 * k <= at <= start + 0x8000_0000 * k,
            forall|i: int| 0 <= i < order@.len() ==> (#[trigger] order@[i]) < pads.len(),
            forall|k: int|
                0 <= k < group.len() ==> fits_i32(
                    start + group_width(pads@, #[trigger] by_id(pads@, group@).take(k)),
                ),
            forall|m: int| #![trigger out@[m]]
                0 <= m < k ==> out@[m].0 == order@[m] && out@[m].1 == start + group_width(
                    pads@,
                    order@.take(m),
                ),
        decreases order.len() - k,
    {
        assert(order@.take(k + 1).drop_last() =~= order@.take(k as int));
        assert(fits_i32(start + group_width(pads@, by_id(pads@, group@).take(k as int))));
        out.push((order[k], at as i32));
        at = at + pads[order[k]].width as i128;
        k += 1;
    }
    out
}

/// How far along the row a pad may actually go, and what is left of the budget.
pub open spec fn moved(offset: int, want: int, budget: int) -> (int, int) {
    let wish = if want > offset {
        want - offset
    } else {
        0
    };
    let take = if budget < wish {
        budget
    } else {
        wish
    };
    (offset + take, budget - take)
}

/// How far along the row a pad may actually go.
///
/// A pad never moves backwards, and the row may only move forward by the slack it has. Each pad's
/// move spends from that budget. Returns the position and the budget left: not spending it lets
/// every pad take the full slack and the row runs off its own end.
pub fn travel(offset: i32, want: i32, budget: i32) -> (r: (i32, i32))
    requires
        fits_i32(moved(offset as int, want as int, budget as int).0),
        fits_i32(moved(offset as int, want as int, budget as int).1),
    ensures
        (r.0 as int, r.1 as int) == moved(offset as int, want as int, budget as int),
{
    let wish: i64 = if want > offset { want as i64 - offset as i64 } else { 0 };
    let take: i64 = if (budget as i64) < wish { budget as i64 } else { wish };
    ((offset as i64 + take) as i32, (budget as i64 - take) as i32)
}

/// A pad never moves backwards nor past where it wants to go, the budget never runs below nothing,
/// and what a pad moves is what the budget loses.
pub proof fn law_travel(offset: int, want: int, budget: int)
    requires
        budget >= 0,
    ensures
        ({
            let (to, left) = moved(offset, want, budget);
            &&& offset <= to
            &&& to <= want || to == offset
            &&& 0 <= left
            &&& to - offset == budget - left
        }),
{
}

/// Is flipping this pad worth it?
///
/// Only when the pad has more than one bump connection: with one there is nothing to trade off. The
/// flip is kept unless it makes the total longer, so an exact tie keeps it.
pub fn keep_flip(straight: i64, flipped: i64, connections: usize) -> (b: bool)
    ensures
        b <==> connections > 1 && flipped <= straight,
{
    connections > 1 && flipped <= straight
}

/// The square of the distance between two points.
spec fn apart(x: int, y: int, to: (i32, i32)) -> int {
    (x - to.0) * (x - to.0) + (y - to.1) * (y - to.1)
}

proof fn lemma_nearest_of(
    p: BumpPad,
    offset: int,
    row_centre: (i32, i32),
    horizontal: bool,
    n: int,
    j: int,
)
    requires
        1 <= n <= p.bumps@.len(),
        0 <= j < n,
    ensures
        ({
            let i = nearest_of(p, offset, row_centre, horizontal, n);
            let (x, y) = if horizontal {
                (offset + half(p.width as int), row_centre.1 as int)
            } else {
                (row_centre.0 as int, offset + half(p.width as int))
            };
            let (di, dj) = (apart(x, y, p.bumps@[i].centre), apart(x, y, p.bumps@[j].centre));
            &&& 0 <= i < n
            &&& di <= dj
            &&& di == dj ==> p.bumps@[i].id <= p.bumps@[j].id
        }),
    decreases n,
{
    let (c, r) = (offset + half(p.width as int), row_centre);
    let i = nearest_of(p, offset, row_centre, horizontal, n);
    if n > 1 {
        lemma_nearest_of(p, offset, row_centre, horizontal, n - 1, if j < n - 1 {
            j
        } else {
            0
        });
    }
}

/// A pad's distance to a bump is taken from the pad's middle on the row's centre line: with the bump
/// straight ahead of the middle, it is how far the bump lies from that line; each way along the row
/// counts alike; and a row up the side measures as one across with the axes changed over.
pub proof fn law_pad_bump_distance(
    at: int,
    width: int,
    bump: (i32, i32),
    row_centre: (i32, i32),
    by: int,
)
    requires
        width >= 0,
        at + width / 2 == bump.0,
    ensures
        bump_distance(at, width, bump, row_centre, true) == (row_centre.1 - bump.1) * (row_centre.1
            - bump.1),
        bump_distance(at + by, width, bump, row_centre, true) == bump_distance(
            at,
            width,
            bump,
            row_centre,
            true,
        ) + by * by,
        bump_distance(at + by, width, bump, row_centre, true) == bump_distance(
            at + by,
            width,
            (bump.1, bump.0),
            (row_centre.1, row_centre.0),
            false,
        ),
{
    assert(0 * 0 == 0) by (nonlinear_arith);
}

/// A pad takes the nearest of its bumps: measured from the pad's centre on the row's centre line, no
/// bump of it is nearer than the one taken, and none that is as near has a lower id.
pub proof fn law_nearest_bump(
    p: BumpPad,
    offset: int,
    row_centre: (i32, i32),
    horizontal: bool,
    j: int,
)
    requires
        0 <= j < p.bumps@.len(),
    ensures
        ({
            let taken = nearest_bump(p, offset, row_centre, horizontal);
            let (x, y) = if horizontal {
                (offset + half(p.width as int), row_centre.1 as int)
            } else {
                (row_centre.0 as int, offset + half(p.width as int))
            };
            let (a, b) = (taken.centre, p.bumps@[j].centre);
            let near = (x - a.0) * (x - a.0) + (y - a.1) * (y - a.1);
            let other = (x - b.0) * (x - b.0) + (y - b.1) * (y - b.1);
            &&& p.bumps@.contains(taken)
            &&& near <= other
            &&& near == other ==> taken.id <= p.bumps@[j].id
        }),
{
    lemma_nearest_of(p, offset, row_centre, horizontal, p.bumps@.len() as int, j);
}

/// The bump lies in the column of another: above or below it along a row that runs across, and otherwise
/// beside it.
pub open spec fn same_column(a: Bump, b: Bump, horizontal: bool) -> bool {
    if horizontal {
        a.centre.0 == b.centre.0
    } else {
        a.centre.1 == b.centre.1
    }
}

/// The `i`-th of the pads from `start` on comes with its nearest bump, which lies in the column of the first
/// one's.
pub open spec fn stands_in_column(
    pads: Seq<BumpPad>,
    start: int,
    offset: int,
    row_centre: (i32, i32),
    horizontal: bool,
    group: Seq<(usize, Bump)>,
    i: int,
) -> bool {
    &&& group[i].0 == start + i
    &&& pads[start + i].bumps@.len() > 0
    &&& group[i].1 == nearest_bump(pads[start + i], offset, row_centre, horizontal)
    &&& same_column(group[i].1, group[0].1, horizontal)
}

/// The pads from `start` on, each with its nearest bump, all of these bumps in one column, and as many
/// pads as that holds for.
pub open spec fn is_column_group(
    pads: Seq<BumpPad>,
    start: int,
    offset: int,
    row_centre: (i32, i32),
    horizontal: bool,
    group: Seq<(usize, Bump)>,
) -> bool {
    let end = start + group.len();
    &&& group.len() > 0
    &&& end <= pads.len()
    &&& forall|i: int|
        0 <= i < group.len() ==> #[trigger] stands_in_column(
            pads,
            start,
            offset,
            row_centre,
            horizontal,
            group,
            i,
        )
    &&& end < pads.len() ==> pads[end].bumps@.len() == 0 || !same_column(
        nearest_bump(pads[end], offset, row_centre, horizontal),
        group[0].1,
        horizontal,
    )
}

/// What a group of pads is. It starts with the pad asked about, runs on without a hole, and gives each
/// pad a bump of its own that none of its others is nearer than; all of these lie in one column. It
/// ends at the row's end, at a pad without bumps, or at one whose nearest bump lies in another column.
pub proof fn law_group_is_a_column(
    pads: Seq<BumpPad>,
    start: int,
    offset: int,
    row_centre: (i32, i32),
    horizontal: bool,
)
    requires
        0 <= start < pads.len() <= usize::MAX,
        pads[start].bumps@.len() > 0,
    ensures
        is_column_group(
            pads,
            start,
            offset,
            row_centre,
            horizontal,
            run_from(pads, start, offset, row_centre, horizontal, None),
        ),
{
    let group = run_from(pads, start, offset, row_centre, horizontal, None);
    lemma_run_ends(pads, start, offset, row_centre, horizontal, None);
    lemma_spans_column(pads, start, offset, row_centre, horizontal, group);
}

proof fn lemma_spans_column(
    pads: Seq<BumpPad>,
    start: int,
    offset: int,
    row_centre: (i32, i32),
    horizontal: bool,
    group: Seq<(usize, Bump)>,
)
    requires
        0 <= start < pads.len(),
        pads[start].bumps@.len() > 0,
        run_spans(pads, start, offset, row_centre, horizontal, None, group),
    ensures
        is_column_group(pads, start, offset, row_centre, horizontal, group),
{
    let here = Some(lane(group[0].1.centre, horizontal));
    assert forall|i: int| 0 <= i < group.len() implies #[trigger] stands_in_column(
        pads,
        start,
        offset,
        row_centre,
        horizontal,
        group,
        i,
    ) by {
        assert(group[i].0 == start + i);
        assert(here == Some(lane(group[i].1.centre, horizontal)));
    }
    let end = start + group.len();
    assert(group.len() > 0);
    assert(end <= pads.len());
    if end < pads.len() && pads[end].bumps@.len() > 0 {
        let next = nearest_bump(pads[end], offset, row_centre, horizontal);
        assert(here != Some(lane(next.centre, horizontal)));
        assert(!same_column(next, group[0].1, horizontal));
    }
}

/// The run from pad `k` on that keeps to a column, where one is given.
spec fn run_spans(
    pads: Seq<BumpPad>,
    k: int,
    offset: int,
    row_centre: (i32, i32),
    horizontal: bool,
    column: Option<i32>,
    group: Seq<(usize, Bump)>,
) -> bool {
    let end = k + group.len();
    let here = if group.len() > 0 {
        Some(lane(group[0].1.centre, horizontal))
    } else {
        column
    };
    &&& end <= pads.len()
    &&& column is Some ==> here == column
    &&& (k < pads.len() && pads[k].bumps@.len() > 0 && column is None) ==> group.len() > 0
    &&& forall|i: int| #![trigger group[i]]
        0 <= i < group.len() ==> {
            &&& group[i].0 == k + i
            &&& pads[k + i].bumps@.len() > 0
            &&& group[i].1 == nearest_bump(pads[k + i], offset, row_centre, horizontal)
            &&& here == Some(lane(group[i].1.centre, horizontal))
        }
    &&& end < pads.len() ==> pads[end].bumps@.len() == 0 || (here is Some && here != Some(
        lane(nearest_bump(pads[end], offset, row_centre, horizontal).centre, horizontal),
    ))
}

proof fn lemma_run_ends(
    pads: Seq<BumpPad>,
    k: int,
    offset: int,
    row_centre: (i32, i32),
    horizontal: bool,
    column: Option<i32>,
)
    requires
        0 <= k <= pads.len() <= usize::MAX,
    ensures
        run_spans(
            pads,
            k,
            offset,
            row_centre,
            horizontal,
            column,
            run_from(pads, k, offset, row_centre, horizontal, column),
        ),
    decreases pads.len() - k,
{
    let group = run_from(pads, k, offset, row_centre, horizontal, column);
    if k < pads.len() && pads[k].bumps@.len() > 0 {
        let best = nearest_bump(pads[k], offset, row_centre, horizontal);
        let here = lane(best.centre, horizontal);
        if !(column matches Some(c) && c != here) {
            lemma_run_ends(pads, k + 1, offset, row_centre, horizontal, Some(here));
            let rest = run_from(pads, k + 1, offset, row_centre, horizontal, Some(here));
            assert(group == seq![(k as usize, best)] + rest);
            assert forall|i: int| #![trigger group[i]] 0 <= i < group.len() implies {
                &&& group[i].0 == k + i
                &&& pads[k + i].bumps@.len() > 0
                &&& group[i].1 == nearest_bump(pads[k + i], offset, row_centre, horizontal)
                &&& Some(here) == Some(lane(group[i].1.centre, horizontal))
            } by {
                if i > 0 {
                    assert(group[i] == rest[i - 1]);
                    assert(pads[k + 1 + (i - 1)] == pads[k + i]);
                }
            }
            assert(k + 1 + rest.len() == k + group.len());
            assert(group[0] == (k as usize, best));
        }
    }
}

/// A group is centred on its bump column: its pads stand shoulder to shoulder in id order, the first
/// starting as far before the column as the last ends behind it, within the unit that halving loses.
pub proof fn law_group_is_centred(pads: Seq<BumpPad>, group: Seq<(usize, Bump)>, horizontal: bool)
    requires
        group.len() > 0,
    ensures
        ({
            let order = by_id(pads, group);
            let start = group_start(pads, group, horizontal);
            let end = start + group_width(pads, order);
            let column = if horizontal {
                group[0].1.centre.0
            } else {
                group[0].1.centre.1
            };
            &&& order.len() == group.len()
            &&& forall|x: usize| #[trigger] order.contains(x) <==> exists|i: int|
                0 <= i < group.len() && (#[trigger] group[i]).0 == x
            &&& forall|i: int, j: int|
                0 <= i < j < order.len() ==> pads[(#[trigger] order[i]) as int].id <= pads[(
                #[trigger] order[j]) as int].id
            &&& -1 <= (column - start) - (end - column) <= 1
            &&& group_width(pads, order.take(0)) == 0
            &&& forall|k: int|
                0 <= k < order.len() ==> group_width(pads, order.take(k + 1)) == group_width(
                    pads,
                    #[trigger] order.take(k),
                ) + pads[order[k] as int].width
        }),
{
    let rule = |a: usize, b: usize| pads[a as int].id < pads[b as int].id;
    let order = by_id(pads, group);
    law_arranged_same(members(group), rule);
    crate::sort::law_arranged_in_order(members(group), rule);
    lemma_width_sorted(pads, members(group), rule);
    assert forall|x: usize| #[trigger] order.contains(x) <==> exists|i: int|
        0 <= i < group.len() && (#[trigger] group[i]).0 == x by {
        assert(order.contains(x) <==> members(group).contains(x));
        if members(group).contains(x) {
            let i = choose|i: int| 0 <= i < members(group).len() && members(group)[i] == x;
            assert(group[i].0 == x);
        }
        if exists|i: int| 0 <= i < group.len() && (#[trigger] group[i]).0 == x {
            let i = choose|i: int| 0 <= i < group.len() && (#[trigger] group[i]).0 == x;
            assert(members(group)[i] == x);
        }
    }
    assert forall|i: int, j: int| 0 <= i < j < order.len() implies pads[(
    #[trigger] order[i]) as int].id <= pads[(#[trigger] order[j]) as int].id by {
        assert(!rule(order[j], order[i]));
    }
    assert forall|k: int| 0 <= k < order.len() implies group_width(pads, order.take(k + 1))
        == group_width(pads, #[trigger] order.take(k)) + pads[order[k] as int].width by {
        assert(order.take(k + 1).drop_last() =~= order.take(k));
    }
}

proof fn lemma_width_placed(
    pads: Seq<BumpPad>,
    s: Seq<usize>,
    x: usize,
    less: spec_fn(usize, usize) -> bool,
)
    ensures
        group_width(pads, crate::sort::placed(s, x, less)) == group_width(pads, s)
            + pads[x as int].width,
    decreases s.len(),
{
    if s.len() == 0 || !less(x, s.last()) {
        assert(s.push(x).drop_last() =~= s);
    } else {
        lemma_width_placed(pads, s.drop_last(), x, less);
        let rest = crate::sort::placed(s.drop_last(), x, less);
        assert(rest.push(s.last()).drop_last() =~= rest);
    }
}

/// Pads are as wide together in any order.
proof fn lemma_width_sorted(
    pads: Seq<BumpPad>,
    s: Seq<usize>,
    less: spec_fn(usize, usize) -> bool,
)
    ensures
        group_width(pads, arranged(s, less)) == group_width(pads, s),
    decreases s.len(),
{
    if s.len() > 0 {
        lemma_width_sorted(pads, s.drop_last(), less);
        lemma_width_placed(pads, arranged(s.drop_last(), less), s.last(), less);
    }
}

/// A pad goes as far towards where it wants to be as the budget lets it: all the way where there is
/// budget for it, and otherwise until the budget is spent. One that is already past it stays.
pub proof fn law_travel_goes_as_far_as_it_can(offset: int, want: int, budget: int)
    requires
        budget >= 0,
    ensures
        ({
            let (to, left) = moved(offset, want, budget);
            &&& want <= offset ==> to == offset && left == budget
            &&& offset <= want <= offset + budget ==> to == want
            &&& want > offset + budget ==> to == offset + budget && left == 0
        }),
{
}

/// The box of a pad at a site is that of the pad placed there: it starts where the pad does, and its sides
/// are what the pad's orientation makes of its own. Along the row it is as long as the pad takes.
pub proof fn law_box_is_the_pads(t: Track, r: Request, index: int)
    requires
        r.size.0 >= 0,
        r.size.1 >= 0,
    ensures
        ({
            let b = box_at(t, index, r.size, r.base);
            let p = placed_at(t, r, index);
            let far = p.orient.image((r.size.0 as int, r.size.1 as int));
            &&& b.0 == p.x && b.1 == p.y
            &&& b.2 - b.0 == if far.0 < 0 { -far.0 } else { far.0 }
            &&& b.3 - b.1 == if far.1 < 0 { -far.1 } else { far.1 }
            &&& p.orient == r.base.composed(t.row.orient) && p.name == r.name && p.master == r.master
            &&& r.base == Orient::R0 && t.edge.across() ==> b.2 - b.0 == length_of(t, r.size)
            &&& r.base == Orient::R0 && !t.edge.across() ==> b.3 - b.1 == length_of(t, r.size)
        }),
{
    crate::orient::law_identity(t.row.orient);
}

/// Pads take as much of a row as each of them does.
pub proof fn law_lengths_add_up(t: Track, a: Seq<Pad>, b: Seq<Pad>, p: Pad)
    ensures
        total_length(t, a + b) == total_length(t, a) + total_length(t, b),
        total_length(t, seq![p]) == length_of(t, p.size),
        total_length(t, Seq::empty()) == 0,
    decreases b.len(),
{
    let one = seq![p];
    assert(one.drop_last() =~= Seq::<Pad>::empty());
    assert(total_length(t, one) == total_length(t, one.drop_last()) + length_of(t, p.size));
    if b.len() == 0 {
        assert(a + b =~= a);
    } else {
        law_lengths_add_up(t, a, b.drop_last(), p);
        assert((a + b).drop_last() =~= a + b.drop_last());
    }
}

/// The pads are spread evenly. Where the room left over makes a whole number of sites for each of the gaps,
/// of which there is one more than there are pads, each gap is that many sites, or as many as the cap
/// allows; and numbers stay short enough for single precision to hold.
pub proof fn law_room_is_shared_evenly(t: Track, pads: Seq<Pad>, k: int, cap: Option<i32>, j: int)
    requires
        t.site_width > 0,
        k >= 0,
        pads.len() + 1 < 0x100_0000,
        t.to() - t.from() - total_length(t, pads) == (pads.len() + 1) * (k * t.site_width),
        t.to() - t.from() - total_length(t, pads) < 0x100_0000,
        t.site_width < 0x100_0000,
        cap matches Some(m) ==> j >= 0 && m == j * t.site_width && m < 0x100_0000,
    ensures
        gap(t, pads, cap) == t.site_width * if cap is Some && j < k {
            j
        } else {
            k
        },
        cap is None ==> cursor(t, pads, gap(t, pads, cap)) == t.to(),
{
    let (n, w) = (pads.len() as int + 1, t.site_width as int);
    let g = k * w;
    assert(g >= 0 && k <= g) by (nonlinear_arith)
        requires
            g == k * w,
            k >= 0,
            w > 0,
    ;
    assert(n * g == g * n && g <= n * g) by (nonlinear_arith)
        requires
            g >= 0,
            n >= 1,
    ;
    lemma_exact_quotient(g, n);
    lemma_exact_quotient(k, w);
    lemma_whole_stays(k);
    if let Some(m) = cap {
        assert(m >= 0 && j <= m) by (nonlinear_arith)
            requires
                m == j * w,
                j >= 0,
                w > 0,
        ;
        lemma_lesser_of_short(g, m as int);
        lemma_exact_quotient(j, w);
        lemma_whole_stays(j);
        assert(j < k <==> m < g) by (nonlinear_arith)
            requires
                m == j * w,
                g == k * w,
                w > 0,
        ;
    }
    assert(k * w == w * k && j * w == w * j) by (nonlinear_arith);
    assert((n - 1) * g + g == n * g) by (nonlinear_arith);
}

/// Where pads are meant to go: the first a gap beyond the start of the row, and each after it a gap beyond the
/// length of the one before.
pub proof fn law_meant_one_after_another(t: Track, before: Seq<Pad>, p: Pad, spacing: int)
    ensures
        cursor(t, Seq::empty(), spacing) == t.from() + spacing,
        cursor(t, before.push(p), spacing) == cursor(t, before, spacing) + length_of(t, p.size)
            + spacing,
{
    assert(before.push(p).drop_last() =~= before);
    assert((before.len() + 1) * spacing == before.len() * spacing + spacing) by (nonlinear_arith);
    assert(0 * spacing == 0) by (nonlinear_arith);
}

/// How a pad slides: where nothing is in its way it stays where it is meant to go; otherwise it moves to where
/// what is in its way starts, and at least by one site; it is refused when it comes off the row, or, where
/// it may not slide, at once.
pub proof fn law_how_a_pad_slides(
    t: Track,
    r: Request,
    index: int,
    conflict: spec_fn(Seq<char>, Rect, Orient) -> Option<RefusalView>,
)
    requires
        !r.allow_overlap,
    ensures
        ({
            let b = box_at(t, index, r.size, r.base);
            let (low, high) = if t.edge.across() {
                (b.0, b.2)
            } else {
                (b.1, b.3)
            };
            let inside = t.from() <= low && high <= t.to();
            let answer = verdict(t, r, index, conflict);
            let end = slid(t, r, index, conflict);
            &&& !inside ==> end == Err::<PlacementView, RefusedView>(
                RefusedView::OutOfRow { name: r.name, at: b },
            )
            &&& inside && answer is None ==> end == Ok::<PlacementView, RefusedView>(
                placed_at(t, r, index),
            )
            &&& inside && answer is Some && !r.allow_shift ==> end == Err::<
                PlacementView,
                RefusedView,
            >(RefusedView::Blocked { name: r.name, at: b, why: answer->0 })
            &&& inside && answer is Some && r.allow_shift && t.row.site_count < i32::MAX && index
                < i32::MAX ==> end == slid(t, r, next_try(t, index, answer->0.overlap), conflict)
        }),
{
    if let Some(why) = verdict(t, r, index, conflict) {
        lemma_site_bound(t, extent(t.edge.across(), rt(why.overlap)).0);
        assert(onwards(t, index, why) == next_try(t, index, why.overlap));
    }
}

/// Where a pad is tried next: at the site where what is in its way starts, along the row, or, where that is
/// not beyond the site it was tried at, at the site after it.
pub open spec fn next_try(t: Track, index: int, hit: Rect) -> int {
    let at = t.site(
        if t.edge.across() {
            hit.0 as int
        } else {
            hit.1 as int
        },
    );
    if at > index {
        at
    } else {
        index + 1
    }
}

proof fn lemma_site_bound(t: Track, at: int)
    ensures
        t.site(at) <= t.row.site_count || t.site(at) <= 0,
{
}

/// Pads are spread in the order given, each from where it is meant to go, and all that were placed before one
/// that is refused have no part in that.
pub proof fn law_spread_in_turn(
    t: Track,
    pads: Seq<Pad>,
    spacing: int,
    conflict: spec_fn(Seq<char>, Rect, Orient) -> Option<RefusalView>,
    k: int,
)
    requires
        0 <= k < pads.len(),
    ensures
        spread(t, pads, spacing, conflict) matches Ok(list) ==> list.len() == pads.len() && slid(
            t,
            request(pads[k], Orient::R0, false, true),
            t.site(cursor(t, pads.take(k), spacing)),
            conflict,
        ) == Ok::<PlacementView, RefusedView>(list[k]),
        spread(t, pads, spacing, conflict) matches Err(e) ==> exists|m: int|
            0 <= m < pads.len() && slid(
                t,
                request(#[trigger] pads[m], Orient::R0, false, true),
                t.site(cursor(t, pads.take(m), spacing)),
                conflict,
            ) == Err::<PlacementView, RefusedView>(e),
    decreases pads.len(),
{
    let head = pads.drop_last();
    let n = pads.len() - 1;
    assert(pads.take(n) =~= head);
    assert(pads[n] == pads.last());
    if n > 0 {
        let j = if k < n {
            k
        } else {
            0
        };
        law_spread_in_turn(t, head, spacing, conflict, j);
        assert(head.take(j) =~= pads.take(j));
        assert(head[j] == pads[j]);
        if let Err(e) = spread(t, head, spacing, conflict) {
            let m = choose|m: int|
                0 <= m < head.len() && slid(
                    t,
                    request(#[trigger] head[m], Orient::R0, false, true),
                    t.site(cursor(t, head.take(m), spacing)),
                    conflict,
                ) == Err::<PlacementView, RefusedView>(e);
            assert(head.take(m) =~= pads.take(m));
            assert(pads[m] == head[m]);
        }
    }
}

} // verus!
