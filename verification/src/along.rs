//! Spreading pads along a row among what already stands there.
//!
//! Every pad joins what is in the way as it lands: a pad that had to slide is an obstruction to the
//! pads after it.

use crate::clearance::{
    blocker_views, follows_on_layers, follows_spacing, hits_instance, law_accepted_is_clear,
    outline_of, rects_on, refusal, refusal_view, refuse, shape_views, total_on_layers,
    total_spacing, Blocker, BlockerView, Refusal, RefusalView, Shape,
};
use crate::design::{box_views, cell_shapes, shapes_at, Metal};
use crate::geom::{fits_i32, Rect};
use crate::orient::Orient;
use crate::pads::{
    box_at, can_slide, cursor, extent, fits_box, follows_conflict, gap, law_placed_is_clear,
    length_of, off_row, onwards, place_one, placed_as, placed_at, request, slid, spread_as,
    stands_in, target_spacing, verdict, Pad, Refused, RefusedView, Request, Track,
};
use crate::place::{oriented_size, placement_views, Placement, PlacementView};
use vstd::prelude::*;

verus! {

/// The boxes of a pad along the row fit, up to one that is off it.
pub open spec fn row_ends(t: Track, size: (i32, i32), last: int) -> bool {
    &&& t.row.site_count <= last <= i32::MAX
    &&& forall|i: int| 0 <= i <= last ==> fits_box(#[trigger] box_at(t, i, size, Orient::R0))
    &&& off_row(t, box_at(t, last, size, Orient::R0))
}

/// There is such a box.
pub open spec fn row_has_end(t: Track, size: (i32, i32)) -> bool {
    exists|last: int| #[trigger] row_ends(t, size, last)
}

/// The boxes of a pad along a row, in terms of how far along it is.
proof fn lemma_box(t: Track, size: (i32, i32), i: int)
    ensures
        ({
            let b = box_at(t, i, size, Orient::R0);
            let z = box_at(t, 0, size, Orient::R0);
            let e = extent(t.edge.across(), b);
            &&& e.0 == t.from() + i * t.row.spacing
            &&& e.1 == e.0 + length_of(t, size)
            &&& extent(!t.edge.across(), b) == extent(!t.edge.across(), z)
        }),
{
    let o = Orient::R0.composed(t.row.orient);
    crate::orient::law_identity(t.row.orient);
    assert(0 * t.row.spacing == 0) by (nonlinear_arith);
}

/// Whether the boxes of a pad along the row stay within machine coordinates, up to one that is off
/// the row.
pub fn has_end(t: &Track, size: (i32, i32)) -> (yes: bool)
    requires
        t.row.spacing > 0,
        t.row.site_count >= 0,
    ensures
        yes == row_has_end(*t, size),
{
    let s: i128 = t.row.spacing as i128;
    let from: i128 = t.start() as i128;
    let length: i128 = crate::pads::pad_width(t, size) as i128;
    let room: i128 = t.end() as i128 - from - length;
    let first: i128 = if room < 0 { 0 } else { room / s + 1 };
    let last: i128 = if first < t.row.site_count as i128 { t.row.site_count as i128 } else { first };
    proof {
        if room >= 0 {
            vstd::arithmetic::div_mod::lemma_fundamental_div_mod(room as int, s as int);
            assert(0 <= room / s <= room && (room / s + 1) * s == s * (room / s) + s)
                by (nonlinear_arith)
                requires
                    room >= 0,
                    s > 0,
            ;
        }
    }
    let yes = last <= i32::MAX as i128 && crate::place::spot_fits(
        0,
        &t.row,
        t.edge,
        size.0,
        size.1,
        Orient::R0,
    ) && corner_fits(t, 0, size) && crate::place::spot_fits(
        last as i32,
        &t.row,
        t.edge,
        size.0,
        size.1,
        Orient::R0,
    ) && corner_fits(t, last as i32, size);
    proof {
        lemma_box(*t, size, 0);
        lemma_box(*t, size, last as int);
        assert(0 * s == 0) by (nonlinear_arith);
        assert(last * s >= first * s) by (nonlinear_arith)
            requires
                last >= first,
                s > 0,
        ;
        assert(off_row(*t, box_at(*t, last as int, size, Orient::R0)));
        if yes {
            assert forall|i: int| 0 <= i <= last implies fits_box(
                #[trigger] box_at(*t, i, size, Orient::R0),
            ) by {
                lemma_box(*t, size, i);
                assert(0 <= i * s <= last * s) by (nonlinear_arith)
                    requires
                        0 <= i <= last,
                        s > 0,
                ;
            }
            assert(row_ends(*t, size, last as int));
        }
        if row_has_end(*t, size) {
            let end = choose|end: int| #[trigger] row_ends(*t, size, end);
            lemma_box(*t, size, end);
            assert(end * s >= 0) by (nonlinear_arith)
                requires
                    end >= 0,
                    s > 0,
            ;
            assert(end >= first) by (nonlinear_arith)
                requires
                    end >= 0,
                    s > 0,
                    end * s > room,
                    room < 0 ==> first == 0,
                    room >= 0 ==> first == room / s + 1,
            ;
            assert(fits_box(box_at(*t, 0, size, Orient::R0)));
            assert(fits_box(box_at(*t, last as int, size, Orient::R0)));
        }
    }
    yes
}

fn corner_fits(t: &Track, index: i32, size: (i32, i32)) -> (yes: bool)
    requires
        ({
            let b = box_at(*t, index as int, size, Orient::R0);
            fits_i32(b.0) && fits_i32(b.1)
        }),
    ensures
        ({
            let b = box_at(*t, index as int, size, Orient::R0);
            yes == (fits_i32(b.2) && fits_i32(b.3))
        }),
{
    let (x, y, orient) = crate::place::place_in_row(
        index,
        &t.row,
        t.edge,
        size.0,
        size.1,
        Orient::R0,
    );
    let (dx, dy) = oriented_size(size.0, size.1, orient);
    let (right, top): (i64, i64) = (x as i64 + dx as i64, y as i64 + dy as i64);
    i32::MIN as i64 <= right && right <= i32::MAX as i64 && i32::MIN as i64 <= top && top
        <= i32::MAX as i64
}

/// What stands in the way of a pad, as a rule on its boxes.
pub open spec fn conflict_of(
    metal: Seq<(Seq<char>, Rect)>,
    size: (i32, i32),
    blockers: Seq<BlockerView>,
    stops: Seq<Rect>,
    overlap: spec_fn(Seq<char>) -> bool,
    spacing: spec_fn(Seq<char>) -> i32,
) -> spec_fn(Seq<char>, Rect, Orient) -> Option<RefusalView> {
    |name: Seq<char>, bbox: Rect, orient: Orient|
        {
            let shapes = shapes_at(metal, size, orient, (bbox.0, bbox.1));
            refusal(name, bbox, rects_on(shapes, overlap), shapes, blockers, stops, spacing)
        }
}

/// A pad that has landed, as something in the way: by its box and its outline.
pub open spec fn landed(
    metal: Seq<(Seq<char>, Rect)>,
    size: (i32, i32),
    p: PlacementView,
    overlap: spec_fn(Seq<char>) -> bool,
) -> BlockerView {
    let (dx, dy) = if crate::place::quarter(p.orient) {
        (size.1, size.0)
    } else {
        (size.0, size.1)
    };
    BlockerView {
        name: p.name,
        bbox: (p.x as i32, p.y as i32, (p.x + dx) as i32, (p.y + dy) as i32),
        outline: rects_on(shapes_at(metal, size, p.orient, (p.x as i32, p.y as i32)), overlap),
        by_box: true,
        shapes: Seq::empty(),
    }
}

/// The pads spread along the row as far as the first that is refused, with everything that then
/// stands in the way.
pub open spec fn spread_among(
    t: Track,
    pads: Seq<Pad>,
    metal: Seq<Seq<(Seq<char>, Rect)>>,
    spacing: int,
    start: Seq<BlockerView>,
    stops: Seq<Rect>,
    overlap: spec_fn(Seq<char>) -> bool,
    clearance: spec_fn(Seq<char>) -> i32,
) -> Result<(Seq<PlacementView>, Seq<BlockerView>), RefusedView>
    decreases pads.len(),
{
    if pads.len() == 0 {
        Ok((Seq::empty(), start))
    } else {
        let head = pads.drop_last();
        let pad = pads.last();
        let own = metal[head.len() as int];
        match spread_among(t, head, metal, spacing, start, stops, overlap, clearance) {
            Err(e) => Err(e),
            Ok((list, all)) => match slid(
                t,
                request(pad, Orient::R0, false, true),
                t.site(cursor(t, head, spacing)),
                conflict_of(own, pad.size, all, stops, overlap, clearance),
            ) {
                Ok(p) => Ok((list.push(p), all.push(landed(own, pad.size, p, overlap)))),
                Err(e) => Err(e),
            },
        }
    }
}

/// The placements of a spread.
pub open spec fn placements_of(
    r: Result<(Seq<PlacementView>, Seq<BlockerView>), RefusedView>,
) -> Result<Seq<PlacementView>, RefusedView> {
    match r {
        Ok((list, _)) => Ok(list),
        Err(e) => Err(e),
    }
}

pub open spec fn metal_views(metal: Seq<Vec<Metal>>) -> Seq<Seq<(Seq<char>, Rect)>> {
    Seq::new(metal.len(), |i: int| box_views(metal[i]@))
}

/// The first pad that is refused decides.
proof fn lemma_refused(
    t: Track,
    pads: Seq<Pad>,
    metal: Seq<Seq<(Seq<char>, Rect)>>,
    spacing: int,
    start: Seq<BlockerView>,
    stops: Seq<Rect>,
    overlap: spec_fn(Seq<char>) -> bool,
    clearance: spec_fn(Seq<char>) -> i32,
    k: int,
)
    requires
        0 <= k <= pads.len(),
        spread_among(t, pads.take(k), metal, spacing, start, stops, overlap, clearance) is Err,
    ensures
        spread_among(t, pads, metal, spacing, start, stops, overlap, clearance) == spread_among(
            t,
            pads.take(k),
            metal,
            spacing,
            start,
            stops,
            overlap,
            clearance,
        ),
    decreases pads.len() - k,
{
    if k < pads.len() {
        assert(pads.take(k + 1).drop_last() =~= pads.take(k));
        lemma_refused(t, pads, metal, spacing, start, stops, overlap, clearance, k + 1);
    } else {
        assert(pads.take(k) =~= pads);
    }
}

/// The row has room beside the pads and an end within machine coordinates.
pub open spec fn along_fits(t: Track, pads: Seq<Pad>, max_spacing: Option<i32>) -> bool {
    &&& crate::pads::has_gap(t, pads, max_spacing)
    &&& forall|k: int| #![trigger pads[k]]
        0 <= k < pads.len() ==> row_has_end(t, pads[k].size)
}

fn fits_along(t: &Track, pads: &[Pad], max_spacing: Option<i32>) -> (yes: bool)
    requires
        t.row.spacing > 0,
        t.row.site_count >= 0,
        pads.len() < usize::MAX,
    ensures
        yes == along_fits(*t, pads@, max_spacing),
{
    if !crate::pads::gap_fits(t, pads, max_spacing) {
        return false;
    }
    let mut i: usize = 0;
    while i < pads.len()
        invariant
            i <= pads.len(),
            t.row.spacing > 0,
            t.row.site_count >= 0,
            forall|k: int| #![trigger pads@[k]]
                0 <= k < i ==> row_has_end(*t, pads@[k].size),
        decreases pads.len() - i,
    {
        if !has_end(t, pads[i].size) {
            assert(!row_has_end(*t, pads@[i as int].size));
            return false;
        }
        i += 1;
    }
    true
}

/// Where the pad stands, as something in the way of the pads after it.
fn settle<L: Fn(&str) -> bool>(
    pad: &Pad,
    metal: &[Metal],
    p: &Placement,
    is_overlap: &L,
) -> (b: Blocker)
    requires
        total_on_layers(*is_overlap),
        ({
            let (dx, dy) = if crate::place::quarter(p.orient) {
                (pad.size.1, pad.size.0)
            } else {
                (pad.size.0, pad.size.1)
            };
            fits_i32(p.x + dx) && fits_i32(p.y + dy)
        }),
    ensures
        forall|rule: spec_fn(Seq<char>) -> bool| #[trigger]
            follows_on_layers(*is_overlap, rule) ==> b@ == landed(
                box_views(metal@),
                pad.size,
                p@,
                rule,
            ),
{
    let (dx, dy) = oriented_size(pad.size.0, pad.size.1, p.orient);
    let shapes = cell_shapes(metal, pad.size, p.orient, (p.x, p.y));
    let outline = outline_of(&shapes, is_overlap);
    let none: Vec<Shape> = Vec::new();
    assert(shape_views(none@) =~= Seq::empty());
    Blocker {
        name: p.name.clone(),
        bbox: (p.x, p.y, (p.x as i64 + dx as i64) as i32, (p.y as i64 + dy as i64) as i32),
        outline,
        by_box: true,
        shapes: none,
    }
}

/// Up to the box that is off the row a pad can be slid along.
proof fn lemma_can_slide<C: FnMut(&str, Rect, Orient) -> Option<Refusal>>(
    t: Track,
    r: Request,
    index: int,
    c: C,
    last: int,
)
    requires
        row_ends(t, r.size, last),
        r.base == Orient::R0,
        !r.allow_overlap,
        t.row.site_count >= 0,
        0 <= index <= last,
    ensures
        can_slide(t, r, index, c),
    decreases last - index,
{
    let b = box_at(t, index, r.size, r.base);
    assert(fits_box(b));
    if !off_row(t, b) {
        let at: Rect = (b.0 as i32, b.1 as i32, b.2 as i32, b.3 as i32);
        assert forall|n: &str, answer: Option<Refusal>|
            n@ == r.name && #[trigger] c.ensures(
                (n, at, r.base.composed(t.row.orient)),
                answer,
            ) implies (answer matches Some(why) ==> onwards(t, index, why@) <= i32::MAX
            && can_slide(t, r, onwards(t, index, why@), c)) by {
            if let Some(why) = answer {
                lemma_can_slide(t, r, onwards(t, index, why@), c, last);
            }
        }
    }
}

/// One pad, slid clear of what stands in the way.
fn place_among<L: Fn(&str) -> bool, F: Fn(&str) -> i32>(
    t: &Track,
    index: i32,
    pad: &Pad,
    metal: &[Metal],
    fixed: &[Blocker],
    stops: &[Rect],
    is_overlap: &L,
    spacing_of: &F,
) -> (r: Result<Placement, Refused>)
    requires
        0 <= index <= t.row.site_count,
        row_has_end(*t, pad.size),
        total_on_layers(*is_overlap),
        total_spacing(*spacing_of),
    ensures
        r matches Ok(p) ==> stands_in(*t, request(*pad, Orient::R0, false, true), p@),
        forall|overlap: spec_fn(Seq<char>) -> bool, clearance: spec_fn(Seq<char>) -> i32|
            #![trigger follows_on_layers(*is_overlap, overlap), follows_spacing(*spacing_of, clearance)]
            follows_on_layers(*is_overlap, overlap) && follows_spacing(*spacing_of, clearance)
                ==> placed_as(
                r,
                slid(
                    *t,
                    request(*pad, Orient::R0, false, true),
                    index as int,
                    conflict_of(
                        box_views(metal@),
                        pad.size,
                        blocker_views(fixed@),
                        stops@,
                        overlap,
                        clearance,
                    ),
                ),
            ),
{
    let mut conflict = |name: &str, bbox: Rect, orient: Orient| -> (r: Option<Refusal>)
        ensures
            forall|overlap: spec_fn(Seq<char>) -> bool, clearance: spec_fn(Seq<char>) -> i32|
                #![trigger follows_on_layers(*is_overlap, overlap), follows_spacing(*spacing_of, clearance)]
                follows_on_layers(*is_overlap, overlap) && follows_spacing(*spacing_of, clearance)
                    ==> refusal_view(r) == conflict_of(
                    box_views(metal@),
                    pad.size,
                    blocker_views(fixed@),
                    stops@,
                    overlap,
                    clearance,
                )(name@, bbox, orient),
        {
            let shapes = cell_shapes(metal, pad.size, orient, (bbox.0, bbox.1));
            let outline = outline_of(&shapes, is_overlap);
            refuse(name, bbox, &outline, &shapes, fixed, stops, spacing_of)
        };
    proof {
        let last = choose|last: int| #[trigger] row_ends(*t, pad.size, last);
        lemma_can_slide(*t, request(*pad, Orient::R0, false, true), index as int, conflict, last);
    }
    let ghost first = conflict;
    let r = place_one(t, index, pad, Orient::R0, false, true, &mut conflict);
    proof {
        assert forall|overlap: spec_fn(Seq<char>) -> bool, clearance: spec_fn(Seq<char>) -> i32|
            #![trigger follows_on_layers(*is_overlap, overlap), follows_spacing(*spacing_of, clearance)]
            follows_on_layers(*is_overlap, overlap) && follows_spacing(
                *spacing_of,
                clearance,
            ) implies placed_as(
            r,
            slid(
                *t,
                request(*pad, Orient::R0, false, true),
                index as int,
                conflict_of(
                    box_views(metal@),
                    pad.size,
                    blocker_views(fixed@),
                    stops@,
                    overlap,
                    clearance,
                ),
            ),
        ) by {
            let rule = conflict_of(
                box_views(metal@),
                pad.size,
                blocker_views(fixed@),
                stops@,
                overlap,
                clearance,
            );
            assert(follows_conflict(first, rule));
        }
    }
    r
}

/// Spread every pad along the row, in the order given, each clear of what already stands there and of
/// the pads before it. Nothing is returned where the row lies too near the ends of the machine's
/// coordinates to be walked.
///
/// `metal` holds the metal of each pad's master.
#[verifier::rlimit(60)]
pub fn place_along<L: Fn(&str) -> bool, F: Fn(&str) -> i32>(
    t: &Track,
    pads: &[Pad],
    metal: &[Vec<Metal>],
    max_spacing: Option<i32>,
    start: Vec<Blocker>,
    stops: &[Rect],
    is_overlap: &L,
    spacing_of: &F,
) -> (r: Option<Result<Vec<Placement>, Refused>>)
    requires
        t.row.spacing > 0,
        t.row.site_count >= 0,
        metal.len() == pads.len(),
        pads.len() < usize::MAX,
        total_on_layers(*is_overlap),
        total_spacing(*spacing_of),
    ensures
        r is Some <==> along_fits(*t, pads@, max_spacing),
        r matches Some(out) ==> forall|
            overlap: spec_fn(Seq<char>) -> bool,
            clearance: spec_fn(Seq<char>) -> i32,
        |
            #![trigger follows_on_layers(*is_overlap, overlap), follows_spacing(*spacing_of, clearance)]
            follows_on_layers(*is_overlap, overlap) && follows_spacing(*spacing_of, clearance)
                ==> spread_as(
                out,
                placements_of(
                    spread_among(
                        *t,
                        pads@,
                        metal_views(metal@),
                        gap(*t, pads@, max_spacing),
                        blocker_views(start@),
                        stops@,
                        overlap,
                        clearance,
                    ),
                ),
            ),
{
    if !fits_along(t, pads, max_spacing) {
        return None;
    }
    let spacing: i32 = target_spacing(t, pads, max_spacing);
    let ghost own = metal_views(metal@);
    let ghost first = blocker_views(start@);
    let mut fixed: Vec<Blocker> = start;
    let mut at: i128 = t.start() as i128 + spacing as i128;
    let mut out: Vec<Placement> = Vec::new();
    let mut i: usize = 0;
    assert(pads@.take(0) =~= Seq::<Pad>::empty());
    assert(placement_views(out@) =~= Seq::<PlacementView>::empty());
    assert(0 * spacing == 0) by (nonlinear_arith);
    while i < pads.len()
        invariant
            i <= pads.len(),
            metal.len() == pads.len(),
            own == metal_views(metal@),
            first == blocker_views(start@),
            t.row.site_count >= 0,
            along_fits(*t, pads@, max_spacing),
            spacing == gap(*t, pads@, max_spacing),
            at == cursor(*t, pads@.take(i as int), spacing as int),
            -0x1_0000_0000 * (i + 1) <= at <= 0x1_0000_0000 * (i + 1),
            total_on_layers(*is_overlap),
            total_spacing(*spacing_of),
            forall|overlap: spec_fn(Seq<char>) -> bool, clearance: spec_fn(Seq<char>) -> i32|
                #![trigger follows_on_layers(*is_overlap, overlap), follows_spacing(*spacing_of, clearance)]
                follows_on_layers(*is_overlap, overlap) && follows_spacing(*spacing_of, clearance)
                    ==> spread_among(
                    *t,
                    pads@.take(i as int),
                    own,
                    spacing as int,
                    first,
                    stops@,
                    overlap,
                    clearance,
                ) == Ok::<(Seq<PlacementView>, Seq<BlockerView>), RefusedView>(
                    (placement_views(out@), blocker_views(fixed@)),
                ),
        decreases pads.len() - i,
    {
        let pad = &pads[i];
        let ghost part = pads@.take(i + 1);
        assert(part.drop_last() =~= pads@.take(i as int));
        assert(pads@[i as int].size == pad.size);
        assert(own[i as int] == box_views(metal@[i as int]@));
        let site: i32 = t.snap(at);
        match place_among(t, site, pad, &metal[i], &fixed, stops, is_overlap, spacing_of) {
            Ok(p) => {
                let b = settle(pad, &metal[i], &p, is_overlap);
                let ghost before = placement_views(out@);
                let ghost was = blocker_views(fixed@);
                let ghost view = p@;
                out.push(p);
                fixed.push(b);
                assert(placement_views(out@) =~= before.push(view));
                assert(blocker_views(fixed@) =~= was.push(b@));
            },
            Err(e) => {
                assert forall|
                    overlap: spec_fn(Seq<char>) -> bool,
                    clearance: spec_fn(Seq<char>) -> i32,
                |
                    #![trigger follows_on_layers(*is_overlap, overlap), follows_spacing(*spacing_of, clearance)]
                    follows_on_layers(*is_overlap, overlap) && follows_spacing(
                        *spacing_of,
                        clearance,
                    ) implies spread_as(
                    Err(e),
                    placements_of(
                        spread_among(
                            *t,
                            pads@,
                            own,
                            gap(*t, pads@, max_spacing),
                            first,
                            stops@,
                            overlap,
                            clearance,
                        ),
                    ),
                ) by {
                    lemma_refused(
                        *t,
                        pads@,
                        own,
                        spacing as int,
                        first,
                        stops@,
                        overlap,
                        clearance,
                        i + 1,
                    );
                }
                return Some(Err(e));
            },
        }
        assert((i + 1) * spacing == i * spacing + spacing) by (nonlinear_arith);
        at = at + crate::pads::pad_width(t, pad.size) as i128 + spacing as i128;
        i += 1;
    }
    assert(pads@.take(pads@.len() as int) =~= pads@);
    Some(Ok(out))
}

/// What stands in the way after a spread: what stood there before, and then each pad as it landed.
proof fn lemma_all_landed(
    t: Track,
    pads: Seq<Pad>,
    metal: Seq<Seq<(Seq<char>, Rect)>>,
    spacing: int,
    start: Seq<BlockerView>,
    stops: Seq<Rect>,
    overlap: spec_fn(Seq<char>) -> bool,
    clearance: spec_fn(Seq<char>) -> i32,
)
    ensures
        spread_among(t, pads, metal, spacing, start, stops, overlap, clearance) matches Ok(
            (list, all),
        ) ==> {
            &&& list.len() == pads.len()
            &&& all.len() == start.len() + pads.len()
            &&& start.is_prefix_of(all)
            &&& forall|k: int|
                0 <= k < pads.len() ==> #[trigger] all[start.len() + k] == landed(
                    metal[k],
                    pads[k].size,
                    list[k],
                    overlap,
                )
        },
    decreases pads.len(),
{
    if pads.len() > 0 {
        lemma_all_landed(t, pads.drop_last(), metal, spacing, start, stops, overlap, clearance);
    }
}

/// No two pads stand on one another: of the pads spread along a row, none conflicts with one that
/// landed before it, nor with anything that already stood there.
pub proof fn law_pads_stand_clear(
    t: Track,
    pads: Seq<Pad>,
    metal: Seq<Seq<(Seq<char>, Rect)>>,
    spacing: int,
    start: Seq<BlockerView>,
    stops: Seq<Rect>,
    overlap: spec_fn(Seq<char>) -> bool,
    clearance: spec_fn(Seq<char>) -> i32,
    i: int,
    j: int,
)
    requires
        spread_among(t, pads, metal, spacing, start, stops, overlap, clearance) is Ok,
        0 <= i < start.len() + j,
        0 <= j < pads.len(),
    ensures
        ({
            let (list, all) = spread_among(
                t,
                pads,
                metal,
                spacing,
                start,
                stops,
                overlap,
                clearance,
            )->Ok_0;
            let own = landed(metal[j], pads[j].size, list[j], overlap);
            !hits_instance(pads[j].name@, own.bbox, own.outline, all[i])
        }),
    decreases pads.len(),
{
    let head = pads.drop_last();
    lemma_all_landed(t, pads, metal, spacing, start, stops, overlap, clearance);
    lemma_all_landed(t, head, metal, spacing, start, stops, overlap, clearance);
    let (list, all) = spread_among(t, head, metal, spacing, start, stops, overlap, clearance)->Ok_0;
    if j < head.len() {
        law_pads_stand_clear(t, head, metal, spacing, start, stops, overlap, clearance, i, j);
        assert(head[j] == pads[j]);
    } else {
        let pad = pads.last();
        let own = metal[head.len() as int];
        let rule = conflict_of(own, pad.size, all, stops, overlap, clearance);
        let req = request(pad, Orient::R0, false, true);
        let at = t.site(cursor(t, head, spacing));
        law_placed_is_clear(t, req, at, rule);
        let p = slid(t, req, at, rule)->Ok_0;
        let k = choose|k: int|
            k >= at && p == placed_at(t, req, k) && !off_row(
                t,
                #[trigger] box_at(t, k, req.size, req.base),
            ) && verdict(t, req, k, rule) is None;
        let b = box_at(t, k, req.size, req.base);
        let bbox: Rect = (b.0 as i32, b.1 as i32, b.2 as i32, b.3 as i32);
        let shapes = shapes_at(own, pad.size, p.orient, (bbox.0, bbox.1));
        law_accepted_is_clear(
            pad.name@,
            bbox,
            rects_on(shapes, overlap),
            shapes,
            all,
            stops,
            clearance,
        );
        assert(landed(own, pad.size, p, overlap).bbox == bbox);
        assert(!hits_instance(pad.name@, bbox, rects_on(shapes, overlap), all[i]));
    }
}

/// A pad that has landed is in the way by its own name and its box: from where it stands, as far as its
/// orientation makes its sides reach.
pub proof fn law_landed_pad_is_in_the_way(
    metal: Seq<(Seq<char>, Rect)>,
    size: (i32, i32),
    p: PlacementView,
    overlap: spec_fn(Seq<char>) -> bool,
)
    requires
        size.0 >= 0 && size.1 >= 0,
        i32::MIN <= p.x && p.x + size.0 + size.1 <= i32::MAX,
        i32::MIN <= p.y && p.y + size.0 + size.1 <= i32::MAX,
    ensures
        ({
            let b = landed(metal, size, p, overlap);
            let far = p.orient.image((size.0 as int, size.1 as int));
            &&& b.name == p.name && b.by_box && b.shapes.len() == 0
            &&& b.bbox.0 == p.x && b.bbox.1 == p.y
            &&& b.bbox.2 - p.x == if far.0 < 0 { -far.0 } else { far.0 }
            &&& b.bbox.3 - p.y == if far.1 < 0 { -far.1 } else { far.1 }
        }),
{
}

/// Pads are spread in the order given, each from where it is meant to go, among what stood there and the pads
/// that landed before it.
pub proof fn law_each_joins_what_is_in_the_way(
    t: Track,
    pads: Seq<Pad>,
    metal: Seq<Seq<(Seq<char>, Rect)>>,
    spacing: int,
    start: Seq<BlockerView>,
    stops: Seq<Rect>,
    overlap: spec_fn(Seq<char>) -> bool,
    clearance: spec_fn(Seq<char>) -> i32,
    k: int,
)
    requires
        spread_among(t, pads, metal, spacing, start, stops, overlap, clearance) is Ok,
        0 <= k < pads.len(),
    ensures
        ({
            let (list, all) = spread_among(
                t,
                pads,
                metal,
                spacing,
                start,
                stops,
                overlap,
                clearance,
            )->Ok_0;
            &&& list.len() == pads.len() && all.len() == start.len() + pads.len()
            &&& start == all.take(start.len() as int)
            &&& all[start.len() + k] == landed(metal[k], pads[k].size, list[k], overlap)
            &&& slid(
                t,
                request(pads[k], Orient::R0, false, true),
                t.site(cursor(t, pads.take(k), spacing)),
                conflict_of(
                    metal[k],
                    pads[k].size,
                    all.take(start.len() + k),
                    stops,
                    overlap,
                    clearance,
                ),
            ) == Ok::<PlacementView, RefusedView>(list[k])
        }),
    decreases pads.len(),
{
    let head = pads.drop_last();
    lemma_all_landed(t, pads, metal, spacing, start, stops, overlap, clearance);
    lemma_all_landed(t, head, metal, spacing, start, stops, overlap, clearance);
    let (list, all) = spread_among(t, pads, metal, spacing, start, stops, overlap, clearance)->Ok_0;
    let (most, before) = spread_among(
        t,
        head,
        metal,
        spacing,
        start,
        stops,
        overlap,
        clearance,
    )->Ok_0;
    assert(start =~= all.take(start.len() as int));
    if k < head.len() {
        law_each_joins_what_is_in_the_way(
            t,
            head,
            metal,
            spacing,
            start,
            stops,
            overlap,
            clearance,
            k,
        );
        assert(head.take(k) =~= pads.take(k));
        assert(before.take(start.len() + k) =~= all.take(start.len() + k));
        assert(most[k] == list[k] && head[k] == pads[k]);
    } else {
        assert(pads.take(k) =~= head);
        assert(all.take(start.len() + k) =~= before);
    }
}

} // verus!
