//! Whether a cell can go somewhere, and it is not a question about bounding boxes.
//!
//! A pad ring is dense, and two cells whose boxes overlap very often do not conflict at all: the
//! metal that matters is on different layers, or the box is far bigger than the cell's real outline.
//!
//! Three tests, in order, each stricter about a different thing: placement blockages, box against
//! box; fixed instances, box against box and then refined by outline where either side declares one;
//! and clearance per layer, the cell's own shapes grown by each layer's spacing against whatever
//! else sits on that same layer.

use crate::geom::{fits_i32, grown, max, min, rt, Rect};
use crate::lists::copy_list;
use crate::orient::Orient;
use crate::place::share_area;
use crate::text::{same_option, text_of};
use vstd::prelude::*;

verus! {

/// One shape belonging to a cell or an obstruction.
#[derive(Debug, PartialEq, Eq)]
pub struct Shape {
    pub layer: String,
    pub rect: Rect,
    /// The net this shape carries, if any. Two shapes on the same net may touch freely.
    pub net: Option<String>,
}

/// Something already in the design that a new cell must respect.
#[derive(Debug, PartialEq, Eq)]
pub struct Blocker {
    pub name: String,
    pub bbox: Rect,
    /// The blocker's true outline, when its master declares one. Empty means "use the box".
    pub outline: Vec<Rect>,
    /// Whether this blocker is checked by box (a fixed instance) or only per layer (a bump).
    pub by_box: bool,
    pub shapes: Vec<Shape>,
}

/// What a shape is.
pub struct ShapeView {
    pub layer: Seq<char>,
    pub rect: Rect,
    pub net: Option<Seq<char>>,
}

/// What a blocker is.
pub struct BlockerView {
    pub name: Seq<char>,
    pub bbox: Rect,
    pub outline: Seq<Rect>,
    pub by_box: bool,
    pub shapes: Seq<ShapeView>,
}

impl View for Shape {
    type V = ShapeView;

    open spec fn view(&self) -> ShapeView {
        ShapeView { layer: self.layer@, rect: self.rect, net: text_of(self.net) }
    }
}

pub open spec fn shape_views(shapes: Seq<Shape>) -> Seq<ShapeView> {
    Seq::new(shapes.len(), |i: int| shapes[i]@)
}

impl View for Blocker {
    type V = BlockerView;

    open spec fn view(&self) -> BlockerView {
        BlockerView {
            name: self.name@,
            bbox: self.bbox,
            outline: self.outline@,
            by_box: self.by_box,
            shapes: shape_views(self.shapes@),
        }
    }
}

pub open spec fn blocker_views(blockers: Seq<Blocker>) -> Seq<BlockerView> {
    Seq::new(blockers.len(), |i: int| blockers[i]@)
}

/// Why a placement was refused.
#[derive(Debug, Clone, PartialEq, Eq)]
pub enum Reason {
    /// A placement blockage. It has no layer and no owner: it forbids cells outright.
    Blockage,
    /// The cell's box hits a fixed instance's box, and no outline saved it.
    Instance(String),
    /// The cell's metal is too close to something else's on the same layer.
    Layer { blocker: String, layer: String },
}

/// What a reason is.
pub enum ReasonView {
    Blockage,
    Instance(Seq<char>),
    Layer { blocker: Seq<char>, layer: Seq<char> },
}

impl View for Reason {
    type V = ReasonView;

    open spec fn view(&self) -> ReasonView {
        match self {
            Reason::Blockage => ReasonView::Blockage,
            Reason::Instance(name) => ReasonView::Instance(name@),
            Reason::Layer { blocker, layer } => ReasonView::Layer {
                blocker: blocker@,
                layer: layer@,
            },
        }
    }
}

/// A refusal, and where the conflict is.
#[derive(Debug, PartialEq, Eq)]
pub struct Refusal {
    pub reason: Reason,
    /// The blocker's own rectangle, not the part of it the cell touches: how far to move to get
    /// clear wants the whole obstruction.
    pub blocker: Rect,
    /// The intersection with the cell's box, not the blocker's own box. Callers that shift a cell
    /// along a row snap to where the overlap starts.
    pub overlap: Rect,
}

/// What a refusal is.
pub struct RefusalView {
    pub reason: ReasonView,
    pub blocker: Rect,
    pub overlap: Rect,
}

impl View for Refusal {
    type V = RefusalView;

    open spec fn view(&self) -> RefusalView {
        RefusalView { reason: self.reason@, blocker: self.blocker, overlap: self.overlap }
    }
}

impl Clone for Shape {
    fn clone(&self) -> (copy: Shape)
        ensures
            copy@ == self@,
    {
        Shape {
            layer: self.layer.clone(),
            rect: self.rect,
            net: match &self.net {
                Some(n) => Some(n.clone()),
                None => None,
            },
        }
    }
}

impl Clone for Blocker {
    fn clone(&self) -> (copy: Blocker)
        ensures
            copy@ == self@,
    {
        let mut shapes: Vec<Shape> = Vec::new();
        let mut i: usize = 0;
        while i < self.shapes.len()
            invariant
                i <= self.shapes.len(),
                shapes.len() == i,
                forall|k: int| 0 <= k < i ==> (#[trigger] shapes@[k])@ == self.shapes@[k]@,
            decreases self.shapes.len() - i,
        {
            shapes.push(self.shapes[i].clone());
            i += 1;
        }
        assert(shape_views(shapes@) =~= shape_views(self.shapes@));
        Blocker {
            name: self.name.clone(),
            bbox: self.bbox,
            outline: copy_list(&self.outline),
            by_box: self.by_box,
            shapes,
        }
    }
}

impl Clone for Refusal {
    fn clone(&self) -> (copy: Refusal)
        ensures
            copy@ == self@,
    {
        let reason = match &self.reason {
            Reason::Blockage => Reason::Blockage,
            Reason::Instance(name) => Reason::Instance(name.clone()),
            Reason::Layer { blocker, layer } => Reason::Layer {
                blocker: blocker.clone(),
                layer: layer.clone(),
            },
        };
        Refusal { reason, blocker: self.blocker, overlap: self.overlap }
    }
}

/// The shared area of two rectangles. Meaningless unless they intersect.
pub open spec fn overlap_rect(a: Rect, b: Rect) -> Rect {
    (
        if a.0 > b.0 { a.0 } else { b.0 },
        if a.1 > b.1 { a.1 } else { b.1 },
        if a.2 < b.2 { a.2 } else { b.2 },
        if a.3 < b.3 { a.3 } else { b.3 },
    )
}

fn overlap_of(a: Rect, b: Rect) -> (r: Rect)
    ensures
        r == overlap_rect(a, b),
{
    (
        if a.0 > b.0 { a.0 } else { b.0 },
        if a.1 > b.1 { a.1 } else { b.1 },
        if a.2 < b.2 { a.2 } else { b.2 },
        if a.3 < b.3 { a.3 } else { b.3 },
    )
}

/// Do two rectangles share area? Touching is not overlapping.
pub fn intersects(a: Rect, b: Rect) -> (yes: bool)
    ensures
        yes == share_area(rt(a), rt(b)),
{
    a.0 < b.2 && b.0 < a.2 && a.1 < b.3 && b.1 < a.3
}

/// Two rectangles share area exactly when their shared area is a rectangle of some size, which then
/// lies within both.
pub proof fn law_overlap(a: Rect, b: Rect)
    requires
        a.0 < a.2 && a.1 < a.3,
        b.0 < b.2 && b.1 < b.3,
    ensures
        ({
            let o = overlap_rect(a, b);
            &&& share_area(rt(a), rt(b)) <==> o.0 < o.2 && o.1 < o.3
            &&& a.0 <= o.0 && o.2 <= a.2 && a.1 <= o.1 && o.3 <= a.3
            &&& b.0 <= o.0 && o.2 <= b.2 && b.1 <= o.1 && o.3 <= b.3
        }),
{
}

/// The rectangle shares area with one of a set.
pub open spec fn meets_any(r: Rect, set: Seq<Rect>) -> bool {
    exists|i: int| 0 <= i < set.len() && share_area(rt(r), rt(#[trigger] set[i]))
}

/// Does a rectangle meet any of a set?
fn hits_any(r: Rect, set: &[Rect]) -> (yes: bool)
    ensures
        yes == meets_any(r, set@),
{
    let mut i: usize = 0;
    while i < set.len()
        invariant
            i <= set.len(),
            forall|k: int| 0 <= k < i ==> !share_area(rt(r), rt(#[trigger] set@[k])),
        decreases set.len() - i,
    {
        if intersects(r, set[i]) {
            return true;
        }
        i += 1;
    }
    false
}

/// Where an orientation puts a point of a master of the given size, the oriented cell's lower-left
/// at the origin.
pub open spec fn mapped(p: (int, int), master: (int, int), orient: Orient) -> (int, int) {
    let (x, y) = p;
    let (w, h) = master;
    match orient {
        Orient::R0 => (x, y),
        Orient::MY => (w - x, y),
        Orient::MX => (x, h - y),
        Orient::R180 => (w - x, h - y),
        Orient::R90 => (h - y, x),
        Orient::MXR90 => (y, x),
        Orient::R270 => (y, w - x),
        Orient::MYR90 => (h - y, w - x),
    }
}

/// A rectangle of a master where a placed cell puts it.
pub open spec fn transformed(
    r: (int, int, int, int),
    master: (int, int),
    orient: Orient,
    at: (int, int),
) -> (int, int, int, int) {
    let a = mapped((r.0, r.1), master, orient);
    let b = mapped((r.2, r.3), master, orient);
    (
        min(a.0, b.0) + at.0,
        min(a.1, b.1) + at.1,
        max(a.0, b.0) + at.0,
        max(a.1, b.1) + at.1,
    )
}

/// The mapping is the orientation's own map of the plane, moved so that the cell starts at the
/// origin.
pub proof fn law_mapped_is_oriented(p: (int, int), q: (int, int), master: (int, int), orient: Orient)
    ensures
        mapped(p, master, orient).0 - mapped(q, master, orient).0 == orient.image(p).0
            - orient.image(q).0,
        mapped(p, master, orient).1 - mapped(q, master, orient).1 == orient.image(p).1
            - orient.image(q).1,
{
}

/// A shape inside its master stays inside the oriented cell, whatever the orientation.
pub proof fn law_transformed_inside(
    r: (int, int, int, int),
    master: (int, int),
    orient: Orient,
    at: (int, int),
)
    requires
        0 <= r.0 <= r.2 <= master.0,
        0 <= r.1 <= r.3 <= master.1,
    ensures
        ({
            let t = transformed(r, master, orient, at);
            let (w, h) = if crate::place::quarter(orient) {
                (master.1, master.0)
            } else {
                (master.0, master.1)
            };
            &&& at.0 <= t.0 <= t.2 <= at.0 + w
            &&& at.1 <= t.1 <= t.3 <= at.1 + h
        }),
{
}

pub fn map_point(x: i32, y: i32, master: (i32, i32), orient: Orient) -> (p: (i64, i64))
    ensures
        (p.0 as int, p.1 as int) == mapped(
            (x as int, y as int),
            (master.0 as int, master.1 as int),
            orient,
        ),
        -0x1_0000_0000 <= p.0 <= 0x1_0000_0000,
        -0x1_0000_0000 <= p.1 <= 0x1_0000_0000,
{
    let (x, y): (i64, i64) = (x as i64, y as i64);
    let (w, h): (i64, i64) = (master.0 as i64, master.1 as i64);
    match orient {
        Orient::R0 => (x, y),
        Orient::MY => (w - x, y),
        Orient::MX => (x, h - y),
        Orient::R180 => (w - x, h - y),
        Orient::R90 => (h - y, x),
        Orient::MXR90 => (y, x),
        Orient::R270 => (y, w - x),
        Orient::MYR90 => (h - y, w - x),
    }
}

/// Move a shape from master coordinates to where a placed cell puts it.
///
/// The cell's origin is its lower-left after orientation, which is why the transformed box is
/// normalised rather than offset directly: a mirrored cell's shapes run the other way from its
/// origin, and adding the origin to a raw coordinate would place them outside it.
pub fn transform(rect: Rect, master: (i32, i32), orient: Orient, at: (i32, i32)) -> (r: Rect)
    requires
        ({
            let t = transformed(
                rt(rect),
                (master.0 as int, master.1 as int),
                orient,
                (at.0 as int, at.1 as int),
            );
            fits_i32(t.0) && fits_i32(t.1) && fits_i32(t.2) && fits_i32(t.3)
        }),
    ensures
        rt(r) == transformed(
            rt(rect),
            (master.0 as int, master.1 as int),
            orient,
            (at.0 as int, at.1 as int),
        ),
{
    let (ax, ay) = map_point(rect.0, rect.1, master, orient);
    let (bx, by) = map_point(rect.2, rect.3, master, orient);
    let (x, y): (i64, i64) = (at.0 as i64, at.1 as i64);
    let (left, right): (i64, i64) = if ax < bx { (ax, bx) } else { (bx, ax) };
    let (low, high): (i64, i64) = if ay < by { (ay, by) } else { (by, ay) };
    ((left + x) as i32, (low + y) as i32, (right + x) as i32, (high + y) as i32)
}

/// The question about a layer can be asked of any.
pub open spec fn total_on_layers<F: Fn(&str) -> bool>(f: F) -> bool {
    forall|s: &str| #[trigger] f.requires((s,))
}

/// The question's answers are those of a rule on the layer's name.
pub open spec fn follows_on_layers<F: Fn(&str) -> bool>(
    f: F,
    rule: spec_fn(Seq<char>) -> bool,
) -> bool {
    forall|s: &str, r: bool| #[trigger] f.ensures((s,), r) ==> r == rule(s@)
}

/// A spacing is given for any layer.
pub open spec fn total_spacing<F: Fn(&str) -> i32>(f: F) -> bool {
    forall|s: &str| #[trigger] f.requires((s,))
}

/// The spacings are those of a rule on the layer's name.
pub open spec fn follows_spacing<F: Fn(&str) -> i32>(
    f: F,
    rule: spec_fn(Seq<char>) -> i32,
) -> bool {
    forall|s: &str, r: i32| #[trigger] f.ensures((s,), r) ==> r == rule(s@)
}

/// The rectangles of the shapes on layers that `keep` lets through.
pub open spec fn rects_on(shapes: Seq<ShapeView>, keep: spec_fn(Seq<char>) -> bool) -> Seq<Rect>
    decreases shapes.len(),
{
    if shapes.len() == 0 {
        Seq::empty()
    } else {
        let rest = rects_on(shapes.drop_last(), keep);
        if keep(shapes.last().layer) {
            rest.push(shapes.last().rect)
        } else {
            rest
        }
    }
}

/// A cell's outline: its obstructions on overlap layers, if it has any.
///
/// Empty means the cell has no outline and its bounding box stands in for it. That is not the same
/// as an empty outline, and treating it as one would let every cell overlap everything.
pub fn outline_of<F: Fn(&str) -> bool>(shapes: &[Shape], is_overlap_layer: &F) -> (out: Vec<Rect>)
    requires
        total_on_layers(*is_overlap_layer),
    ensures
        forall|rule: spec_fn(Seq<char>) -> bool| #[trigger]
            follows_on_layers(*is_overlap_layer, rule) ==> out@ == rects_on(shape_views(shapes@), rule),
{
    let ghost all = shape_views(shapes@);
    let mut out: Vec<Rect> = Vec::new();
    let mut i: usize = 0;
    assert(all.take(0) =~= Seq::<ShapeView>::empty());
    while i < shapes.len()
        invariant
            i <= shapes.len(),
            total_on_layers(*is_overlap_layer),
            forall|rule: spec_fn(Seq<char>) -> bool| #[trigger]
                follows_on_layers(*is_overlap_layer, rule) ==> out@ == rects_on(
                    all.take(i as int),
                    rule,
                ),
            all == shape_views(shapes@),
        decreases shapes.len() - i,
    {
        assert(all.take(i + 1).drop_last() =~= all.take(i as int));
        assert(all[i as int] == shapes@[i as int]@);
        if is_overlap_layer(shapes[i].layer.as_str()) {
            out.push(shapes[i].rect);
        }
        i += 1;
    }
    assert(all.take(all.len() as int) =~= all);
    out
}

/// The cell conflicts with the blockage.
pub open spec fn hits_blockage(cell: Rect, g: Rect) -> bool {
    share_area(rt(cell), rt(g))
}

/// The cell conflicts with the fixed instance: their boxes share area, and so do their outlines,
/// as far as they have one.
pub open spec fn hits_instance(name: Seq<char>, cell: Rect, outline: Seq<Rect>, b: BlockerView) -> bool {
    &&& b.by_box
    &&& b.name != name
    &&& share_area(rt(cell), rt(b.bbox))
    &&& if b.outline.len() > 0 && outline.len() > 0 {
        exists|i: int| 0 <= i < b.outline.len() && meets_any(#[trigger] b.outline[i], outline)
    } else if b.outline.len() > 0 {
        meets_any(cell, b.outline)
    } else if outline.len() > 0 {
        meets_any(b.bbox, outline)
    } else {
        true
    }
}

/// The cell's shape is too close to the other shape: they are on the same layer, not on the same
/// net, and the other shares area with the shape grown by the layer's spacing.
pub open spec fn crowds(s: ShapeView, other: ShapeView, spacing: int) -> bool {
    &&& other.layer == s.layer
    &&& !(s.net is Some && s.net == other.net)
    &&& share_area(grown(rt(s.rect), max(spacing, 0)), rt(other.rect))
}

/// The refusal of a blockage.
pub open spec fn blockage_refusal(cell: Rect, g: Rect) -> RefusalView {
    RefusalView { reason: ReasonView::Blockage, blocker: g, overlap: overlap_rect(cell, g) }
}

/// The refusal of a fixed instance.
pub open spec fn instance_refusal(cell: Rect, b: BlockerView) -> RefusalView {
    RefusalView {
        reason: ReasonView::Instance(b.name),
        blocker: b.bbox,
        overlap: overlap_rect(cell, b.bbox),
    }
}

/// The refusal of a shape. The overlap is measured against the cell's box, not its grown shape.
pub open spec fn layer_refusal(cell: Rect, s: ShapeView, b: BlockerView, other: ShapeView) -> RefusalView {
    RefusalView {
        reason: ReasonView::Layer { blocker: b.name, layer: s.layer },
        blocker: other.rect,
        overlap: overlap_rect(cell, other.rect),
    }
}

/// The first blockage that refuses the cell.
pub open spec fn by_blockage(cell: Rect, blockages: Seq<Rect>) -> Option<RefusalView>
    decreases blockages.len(),
{
    if blockages.len() == 0 {
        None
    } else if hits_blockage(cell, blockages[0]) {
        Some(blockage_refusal(cell, blockages[0]))
    } else {
        by_blockage(cell, blockages.drop_first())
    }
}

/// The first fixed instance that refuses the cell.
pub open spec fn by_instance(
    name: Seq<char>,
    cell: Rect,
    outline: Seq<Rect>,
    blockers: Seq<BlockerView>,
) -> Option<RefusalView>
    decreases blockers.len(),
{
    if blockers.len() == 0 {
        None
    } else if hits_instance(name, cell, outline, blockers[0]) {
        Some(instance_refusal(cell, blockers[0]))
    } else {
        by_instance(name, cell, outline, blockers.drop_first())
    }
}

/// The first shape of a blocker that a shape of the cell crowds.
pub open spec fn by_shape(
    cell: Rect,
    s: ShapeView,
    spacing: int,
    b: BlockerView,
    others: Seq<ShapeView>,
) -> Option<RefusalView>
    decreases others.len(),
{
    if others.len() == 0 {
        None
    } else if crowds(s, others[0], spacing) {
        Some(layer_refusal(cell, s, b, others[0]))
    } else {
        by_shape(cell, s, spacing, b, others.drop_first())
    }
}

/// The first blocker other than the cell itself that a shape of the cell crowds.
pub open spec fn by_blocker(
    name: Seq<char>,
    cell: Rect,
    s: ShapeView,
    spacing: int,
    blockers: Seq<BlockerView>,
) -> Option<RefusalView>
    decreases blockers.len(),
{
    if blockers.len() == 0 {
        None
    } else {
        let first = if blockers[0].name == name {
            None
        } else {
            by_shape(cell, s, spacing, blockers[0], blockers[0].shapes)
        };
        match first {
            Some(r) => Some(r),
            None => by_blocker(name, cell, s, spacing, blockers.drop_first()),
        }
    }
}

/// The first shape of the cell that crowds something.
pub open spec fn by_layer(
    name: Seq<char>,
    cell: Rect,
    shapes: Seq<ShapeView>,
    blockers: Seq<BlockerView>,
    spacing_of: spec_fn(Seq<char>) -> i32,
) -> Option<RefusalView>
    decreases shapes.len(),
{
    if shapes.len() == 0 {
        None
    } else {
        match by_blocker(
            name,
            cell,
            shapes[0],
            spacing_of(shapes[0].layer) as int,
            blockers,
        ) {
            Some(r) => Some(r),
            None => by_layer(name, cell, shapes.drop_first(), blockers, spacing_of),
        }
    }
}

/// Why the cell cannot go here, if it cannot: blockages first, then fixed instances, then clearance
/// per layer.
pub open spec fn refusal(
    name: Seq<char>,
    cell: Rect,
    outline: Seq<Rect>,
    shapes: Seq<ShapeView>,
    blockers: Seq<BlockerView>,
    blockages: Seq<Rect>,
    spacing_of: spec_fn(Seq<char>) -> i32,
) -> Option<RefusalView> {
    match by_blockage(cell, blockages) {
        Some(r) => Some(r),
        None => match by_instance(name, cell, outline, blockers) {
            Some(r) => Some(r),
            None => by_layer(name, cell, shapes, blockers, spacing_of),
        },
    }
}

/// A refusal as what it is.
pub open spec fn refusal_view(r: Option<Refusal>) -> Option<RefusalView> {
    match r {
        Some(x) => Some(x@),
        None => None,
    }
}

fn check_blockages(cell: Rect, blockages: &[Rect]) -> (r: Option<Refusal>)
    ensures
        refusal_view(r) == by_blockage(cell, blockages@),
{
    let mut i: usize = 0;
    assert(blockages@.skip(0) =~= blockages@);
    while i < blockages.len()
        invariant
            i <= blockages.len(),
            by_blockage(cell, blockages@) == by_blockage(cell, blockages@.skip(i as int)),
        decreases blockages.len() - i,
    {
        let g = blockages[i];
        if intersects(cell, g) {
            return Some(
                Refusal { reason: Reason::Blockage, blocker: g, overlap: overlap_of(cell, g) },
            );
        }
        assert(blockages@.skip(i as int).drop_first() =~= blockages@.skip(i + 1));
        i += 1;
    }
    None
}

/// Whether two outlines share area.
fn outlines_meet(a: &Vec<Rect>, b: &[Rect]) -> (yes: bool)
    ensures
        yes == exists|i: int| 0 <= i < a@.len() && meets_any(#[trigger] a@[i], b@),
{
    let mut i: usize = 0;
    while i < a.len()
        invariant
            i <= a.len(),
            forall|k: int| 0 <= k < i ==> !meets_any(#[trigger] a@[k], b@),
        decreases a.len() - i,
    {
        if hits_any(a[i], b) {
            return true;
        }
        i += 1;
    }
    false
}

fn check_instances(
    name: &str,
    cell: Rect,
    outline: &[Rect],
    blockers: &[Blocker],
) -> (r: Option<Refusal>)
    ensures
        refusal_view(r) == by_instance(name@, cell, outline@, blocker_views(blockers@)),
{
    let ghost all = blocker_views(blockers@);
    let mut i: usize = 0;
    assert(all.skip(0) =~= all);
    while i < blockers.len()
        invariant
            i <= blockers.len(),
            all == blocker_views(blockers@),
            by_instance(name@, cell, outline@, all) == by_instance(
                name@,
                cell,
                outline@,
                all.skip(i as int),
            ),
        decreases blockers.len() - i,
    {
        let b = &blockers[i];
        assert(all.skip(i as int)[0] == b@);
        if b.by_box && *b.name.as_str() != *name && intersects(cell, b.bbox) {
            let refined = if b.outline.len() > 0 {
                if outline.len() > 0 {
                    outlines_meet(&b.outline, outline)
                } else {
                    hits_any(cell, &b.outline)
                }
            } else if outline.len() > 0 {
                hits_any(b.bbox, outline)
            } else {
                true
            };
            if refined {
                return Some(
                    Refusal {
                        reason: Reason::Instance(b.name.clone()),
                        blocker: b.bbox,
                        overlap: overlap_of(cell, b.bbox),
                    },
                );
            }
        }
        assert(all.skip(i as int).drop_first() =~= all.skip(i + 1));
        i += 1;
    }
    None
}

/// Whether the cell's shape is too close to the other shape.
fn is_crowding(s: &Shape, other: &Shape, spacing: i32) -> (yes: bool)
    ensures
        yes == crowds(s@, other@, spacing as int),
{
    if other.layer != s.layer {
        return false;
    }
    if s.net.is_some() && same_option(&s.net, &other.net) {
        return false;
    }
    let g: i64 = if spacing > 0 { spacing as i64 } else { 0 };
    let (a, b) = (s.rect, other.rect);
    (a.0 as i64) - g < b.2 as i64 && (b.0 as i64) < a.2 as i64 + g && (a.1 as i64) - g < b.3 as i64
        && (b.1 as i64) < a.3 as i64 + g
}

fn check_shape(cell: Rect, s: &Shape, spacing: i32, b: &Blocker) -> (r: Option<Refusal>)
    ensures
        refusal_view(r) == by_shape(cell, s@, spacing as int, b@, b@.shapes),
{
    let ghost others = b@.shapes;
    let mut i: usize = 0;
    assert(others.skip(0) =~= others);
    while i < b.shapes.len()
        invariant
            i <= b.shapes.len(),
            others == b@.shapes,
            by_shape(cell, s@, spacing as int, b@, others) == by_shape(
                cell,
                s@,
                spacing as int,
                b@,
                others.skip(i as int),
            ),
        decreases b.shapes.len() - i,
    {
        let other = &b.shapes[i];
        assert(others.skip(i as int)[0] == other@);
        if is_crowding(s, other, spacing) {
            return Some(
                Refusal {
                    reason: Reason::Layer { blocker: b.name.clone(), layer: s.layer.clone() },
                    blocker: other.rect,
                    overlap: overlap_of(cell, other.rect),
                },
            );
        }
        assert(others.skip(i as int).drop_first() =~= others.skip(i + 1));
        i += 1;
    }
    None
}

fn check_blockers(
    name: &str,
    cell: Rect,
    s: &Shape,
    spacing: i32,
    blockers: &[Blocker],
) -> (r: Option<Refusal>)
    ensures
        refusal_view(r) == by_blocker(name@, cell, s@, spacing as int, blocker_views(blockers@)),
{
    let ghost all = blocker_views(blockers@);
    let mut i: usize = 0;
    assert(all.skip(0) =~= all);
    while i < blockers.len()
        invariant
            i <= blockers.len(),
            all == blocker_views(blockers@),
            by_blocker(name@, cell, s@, spacing as int, all) == by_blocker(
                name@,
                cell,
                s@,
                spacing as int,
                all.skip(i as int),
            ),
        decreases blockers.len() - i,
    {
        let b = &blockers[i];
        assert(all.skip(i as int)[0] == b@);
        if *b.name.as_str() != *name {
            let r = check_shape(cell, s, spacing, b);
            if r.is_some() {
                return r;
            }
        }
        assert(all.skip(i as int).drop_first() =~= all.skip(i + 1));
        i += 1;
    }
    None
}

/// Would placing a cell here conflict with anything?
///
/// `cell_bbox` and `cell_shapes` describe the cell as it would be placed. `spacing_of` gives each
/// layer's required clearance, which the cell's own shapes are grown by before comparison: the
/// moving cell is bloated, not the fixed one.
///
/// The order of the tests is part of the answer: the caller shifts to the first conflict it is told
/// about. An outline only ever narrows the conflict. Shapes on the same net are meant to touch; only
/// a mismatch is a conflict, and having no net never matches having no net.
pub fn refuse<F: Fn(&str) -> i32>(
    cell_name: &str,
    cell_bbox: Rect,
    cell_outline: &[Rect],
    cell_shapes: &[Shape],
    blockers: &[Blocker],
    blockages: &[Rect],
    spacing_of: &F,
) -> (r: Option<Refusal>)
    requires
        total_spacing(*spacing_of),
    ensures
        forall|rule: spec_fn(Seq<char>) -> i32| #[trigger]
            follows_spacing(*spacing_of, rule) ==> refusal_view(r) == refusal(
                cell_name@,
                cell_bbox,
                cell_outline@,
                shape_views(cell_shapes@),
                blocker_views(blockers@),
                blockages@,
                rule,
            ),
{
    let first = check_blockages(cell_bbox, blockages);
    if first.is_some() {
        return first;
    }
    let second = check_instances(cell_name, cell_bbox, cell_outline, blockers);
    if second.is_some() {
        return second;
    }
    let ghost all = blocker_views(blockers@);
    let ghost list = shape_views(cell_shapes@);
    let mut i: usize = 0;
    assert(list.skip(0) =~= list);
    while i < cell_shapes.len()
        invariant
            i <= cell_shapes.len(),
            total_spacing(*spacing_of),
            by_blockage(cell_bbox, blockages@) is None,
            all == blocker_views(blockers@),
            list == shape_views(cell_shapes@),
            by_instance(cell_name@, cell_bbox, cell_outline@, all) is None,
            forall|rule: spec_fn(Seq<char>) -> i32| #[trigger]
                follows_spacing(*spacing_of, rule) ==> by_layer(
                    cell_name@,
                    cell_bbox,
                    list,
                    all,
                    rule,
                ) == by_layer(
                    cell_name@,
                    cell_bbox,
                    list.skip(i as int),
                    all,
                    rule,
                ),
        decreases cell_shapes.len() - i,
    {
        let s = &cell_shapes[i];
        let spacing: i32 = spacing_of(s.layer.as_str());
        assert(list.skip(i as int)[0] == s@);
        assert(list.skip(i as int).drop_first() =~= list.skip(i + 1));
        let r = check_blockers(cell_name, cell_bbox, s, spacing, blockers);
        if r.is_some() {
            return r;
        }
        i += 1;
    }
    None
}

/// A cell that touches nothing is not refused: no blockage, no box and no shape of another cell
/// shares area with it, grown or not.
pub proof fn law_clear_is_accepted(
    name: Seq<char>,
    cell: Rect,
    outline: Seq<Rect>,
    shapes: Seq<ShapeView>,
    blockers: Seq<BlockerView>,
    blockages: Seq<Rect>,
    spacing_of: spec_fn(Seq<char>) -> i32,
)
    requires
        forall|i: int| 0 <= i < blockages.len() ==> !hits_blockage(cell, #[trigger] blockages[i]),
        forall|i: int|
            0 <= i < blockers.len() ==> !hits_instance(name, cell, outline, #[trigger] blockers[i]),
        forall|i: int, j: int, k: int|
            0 <= i < shapes.len() && 0 <= j < blockers.len() && 0 <= k < blockers[j].shapes.len()
                && blockers[j].name != name ==> !crowds(
                #[trigger] shapes[i],
                #[trigger] blockers[j].shapes[k],
                spacing_of(shapes[i].layer) as int,
            ),
    ensures
        refusal(name, cell, outline, shapes, blockers, blockages, spacing_of) is None,
{
    lemma_no_blockage(cell, blockages);
    lemma_no_instance(name, cell, outline, blockers);
    lemma_no_layer(name, cell, shapes, blockers, spacing_of);
}

proof fn lemma_no_blockage(cell: Rect, blockages: Seq<Rect>)
    requires
        forall|i: int| 0 <= i < blockages.len() ==> !hits_blockage(cell, #[trigger] blockages[i]),
    ensures
        by_blockage(cell, blockages) is None,
    decreases blockages.len(),
{
    if blockages.len() > 0 {
        let rest = blockages.drop_first();
        assert forall|i: int| 0 <= i < rest.len() implies !hits_blockage(
            cell,
            #[trigger] rest[i],
        ) by {
            assert(!hits_blockage(cell, blockages[i + 1]));
        }
        lemma_no_blockage(cell, rest);
    }
}

proof fn lemma_no_instance(
    name: Seq<char>,
    cell: Rect,
    outline: Seq<Rect>,
    blockers: Seq<BlockerView>,
)
    requires
        forall|i: int|
            0 <= i < blockers.len() ==> !hits_instance(name, cell, outline, #[trigger] blockers[i]),
    ensures
        by_instance(name, cell, outline, blockers) is None,
    decreases blockers.len(),
{
    if blockers.len() > 0 {
        let rest = blockers.drop_first();
        assert forall|i: int| 0 <= i < rest.len() implies !hits_instance(
            name,
            cell,
            outline,
            #[trigger] rest[i],
        ) by {
            assert(!hits_instance(name, cell, outline, blockers[i + 1]));
        }
        lemma_no_instance(name, cell, outline, rest);
    }
}

proof fn lemma_no_shape(cell: Rect, s: ShapeView, spacing: int, b: BlockerView, others: Seq<ShapeView>)
    requires
        forall|k: int| 0 <= k < others.len() ==> !crowds(s, #[trigger] others[k], spacing),
    ensures
        by_shape(cell, s, spacing, b, others) is None,
    decreases others.len(),
{
    if others.len() > 0 {
        let rest = others.drop_first();
        assert forall|k: int| 0 <= k < rest.len() implies !crowds(
            s,
            #[trigger] rest[k],
            spacing,
        ) by {
            assert(!crowds(s, others[k + 1], spacing));
        }
        lemma_no_shape(cell, s, spacing, b, rest);
    }
}

proof fn lemma_no_blocker(
    name: Seq<char>,
    cell: Rect,
    s: ShapeView,
    spacing: int,
    blockers: Seq<BlockerView>,
)
    requires
        forall|j: int, k: int|
            0 <= j < blockers.len() && 0 <= k < blockers[j].shapes.len() && blockers[j].name
                != name ==> !crowds(s, #[trigger] blockers[j].shapes[k], spacing),
    ensures
        by_blocker(name, cell, s, spacing, blockers) is None,
    decreases blockers.len(),
{
    if blockers.len() > 0 {
        let rest = blockers.drop_first();
        if blockers[0].name != name {
            assert forall|k: int| 0 <= k < blockers[0].shapes.len() implies !crowds(
                s,
                #[trigger] blockers[0].shapes[k],
                spacing,
            ) by {}
            lemma_no_shape(cell, s, spacing, blockers[0], blockers[0].shapes);
        }
        assert forall|j: int, k: int|
            0 <= j < rest.len() && 0 <= k < rest[j].shapes.len() && rest[j].name
                != name implies !crowds(s, #[trigger] rest[j].shapes[k], spacing) by {
            assert(!crowds(s, blockers[j + 1].shapes[k], spacing));
        }
        lemma_no_blocker(name, cell, s, spacing, rest);
    }
}

proof fn lemma_no_layer(
    name: Seq<char>,
    cell: Rect,
    shapes: Seq<ShapeView>,
    blockers: Seq<BlockerView>,
    spacing_of: spec_fn(Seq<char>) -> i32,
)
    requires
        forall|i: int, j: int, k: int|
            0 <= i < shapes.len() && 0 <= j < blockers.len() && 0 <= k < blockers[j].shapes.len()
                && blockers[j].name != name ==> !crowds(
                #[trigger] shapes[i],
                #[trigger] blockers[j].shapes[k],
                spacing_of(shapes[i].layer) as int,
            ),
    ensures
        by_layer(name, cell, shapes, blockers, spacing_of) is None,
    decreases shapes.len(),
{
    if shapes.len() > 0 {
        let rest = shapes.drop_first();
        let s = shapes[0];
        let spacing = spacing_of(s.layer) as int;
        assert forall|j: int, k: int|
            0 <= j < blockers.len() && 0 <= k < blockers[j].shapes.len() && blockers[j].name
                != name implies !crowds(s, #[trigger] blockers[j].shapes[k], spacing) by {
            assert(!crowds(shapes[0], blockers[j].shapes[k], spacing));
        }
        lemma_no_blocker(name, cell, s, spacing, blockers);
        assert forall|i: int, j: int, k: int|
            0 <= i < rest.len() && 0 <= j < blockers.len() && 0 <= k < blockers[j].shapes.len()
                && blockers[j].name != name implies !crowds(
            #[trigger] rest[i],
            #[trigger] blockers[j].shapes[k],
            spacing_of(rest[i].layer) as int,
        ) by {
            assert(!crowds(
                shapes[i + 1],
                blockers[j].shapes[k],
                spacing_of(shapes[i + 1].layer) as int,
            ));
        }
        lemma_no_layer(name, cell, rest, blockers, spacing_of);
    }
}

/// An outline only ever narrows the conflict: a cell that an instance refuses by outline it also
/// refuses by box.
pub proof fn law_outline_narrows(name: Seq<char>, cell: Rect, outline: Seq<Rect>, b: BlockerView)
    requires
        hits_instance(name, cell, outline, b),
    ensures
        b.by_box && b.name != name && share_area(rt(cell), rt(b.bbox)),
{
}

/// A cell that is not refused touches nothing: no blockage, no fixed instance, and no shape of
/// another cell closer than the layer's spacing.
pub proof fn law_accepted_is_clear(
    name: Seq<char>,
    cell: Rect,
    outline: Seq<Rect>,
    shapes: Seq<ShapeView>,
    blockers: Seq<BlockerView>,
    blockages: Seq<Rect>,
    spacing_of: spec_fn(Seq<char>) -> i32,
)
    requires
        refusal(name, cell, outline, shapes, blockers, blockages, spacing_of) is None,
    ensures
        forall|i: int| 0 <= i < blockages.len() ==> !hits_blockage(cell, #[trigger] blockages[i]),
        forall|i: int|
            0 <= i < blockers.len() ==> !hits_instance(name, cell, outline, #[trigger] blockers[i]),
        forall|i: int, j: int, k: int|
            0 <= i < shapes.len() && 0 <= j < blockers.len() && 0 <= k < blockers[j].shapes.len()
                && blockers[j].name != name ==> !crowds(
                #[trigger] shapes[i],
                #[trigger] blockers[j].shapes[k],
                spacing_of(shapes[i].layer) as int,
            ),
{
    assert forall|i: int| 0 <= i < blockages.len() implies !hits_blockage(
        cell,
        #[trigger] blockages[i],
    ) by {
        lemma_blockage_clear(cell, blockages, i);
    }
    assert forall|i: int| 0 <= i < blockers.len() implies !hits_instance(
        name,
        cell,
        outline,
        #[trigger] blockers[i],
    ) by {
        lemma_instance_clear(name, cell, outline, blockers, i);
    }
    assert forall|i: int, j: int, k: int|
        0 <= i < shapes.len() && 0 <= j < blockers.len() && 0 <= k < blockers[j].shapes.len()
            && blockers[j].name != name implies !crowds(
        #[trigger] shapes[i],
        #[trigger] blockers[j].shapes[k],
        spacing_of(shapes[i].layer) as int,
    ) by {
        lemma_layer_clear(name, cell, shapes, blockers, spacing_of, i);
        let spacing = spacing_of(shapes[i].layer) as int;
        lemma_blocker_clear(name, cell, shapes[i], spacing, blockers, j);
        lemma_shape_clear(cell, shapes[i], spacing, blockers[j], blockers[j].shapes, k);
    }
}

proof fn lemma_blockage_clear(cell: Rect, blockages: Seq<Rect>, i: int)
    requires
        by_blockage(cell, blockages) is None,
        0 <= i < blockages.len(),
    ensures
        !hits_blockage(cell, blockages[i]),
    decreases blockages.len(),
{
    if i > 0 {
        lemma_blockage_clear(cell, blockages.drop_first(), i - 1);
    }
}

proof fn lemma_instance_clear(
    name: Seq<char>,
    cell: Rect,
    outline: Seq<Rect>,
    blockers: Seq<BlockerView>,
    i: int,
)
    requires
        by_instance(name, cell, outline, blockers) is None,
        0 <= i < blockers.len(),
    ensures
        !hits_instance(name, cell, outline, blockers[i]),
    decreases blockers.len(),
{
    if i > 0 {
        lemma_instance_clear(name, cell, outline, blockers.drop_first(), i - 1);
    }
}

proof fn lemma_shape_clear(
    cell: Rect,
    s: ShapeView,
    spacing: int,
    b: BlockerView,
    others: Seq<ShapeView>,
    k: int,
)
    requires
        by_shape(cell, s, spacing, b, others) is None,
        0 <= k < others.len(),
    ensures
        !crowds(s, others[k], spacing),
    decreases others.len(),
{
    if k > 0 {
        lemma_shape_clear(cell, s, spacing, b, others.drop_first(), k - 1);
    }
}

proof fn lemma_blocker_clear(
    name: Seq<char>,
    cell: Rect,
    s: ShapeView,
    spacing: int,
    blockers: Seq<BlockerView>,
    j: int,
)
    requires
        by_blocker(name, cell, s, spacing, blockers) is None,
        0 <= j < blockers.len(),
        blockers[j].name != name,
    ensures
        by_shape(cell, s, spacing, blockers[j], blockers[j].shapes) is None,
    decreases blockers.len(),
{
    if j > 0 {
        lemma_blocker_clear(name, cell, s, spacing, blockers.drop_first(), j - 1);
    }
}

proof fn lemma_layer_clear(
    name: Seq<char>,
    cell: Rect,
    shapes: Seq<ShapeView>,
    blockers: Seq<BlockerView>,
    spacing_of: spec_fn(Seq<char>) -> i32,
    i: int,
)
    requires
        by_layer(name, cell, shapes, blockers, spacing_of) is None,
        0 <= i < shapes.len(),
    ensures
        by_blocker(
            name,
            cell,
            shapes[i],
            spacing_of(shapes[i].layer) as int,
            blockers,
        ) is None,
    decreases shapes.len(),
{
    if i > 0 {
        lemma_layer_clear(name, cell, shapes.drop_first(), blockers, spacing_of, i - 1);
    }
}

/// The shared area is all of it: what lies in both rectangles lies in it.
pub proof fn law_overlap_is_all_of_it(a: Rect, b: Rect, x: int, y: int)
    ensures
        ({
            let o = overlap_rect(a, b);
            (a.0 <= x <= a.2 && a.1 <= y <= a.3) && (b.0 <= x <= b.2 && b.1 <= y <= b.3) <==> (o.0
                <= x <= o.2 && o.1 <= y <= o.3)
        }),
{
}

/// A shape crowds another on its layer, unless they are on one net, exactly where they are less than the
/// spacing apart along both axes.
pub proof fn law_crowding_is_too_close(s: ShapeView, other: ShapeView, spacing: int)
    ensures
        ({
            let (a, b) = (s.rect, other.rect);
            let d = if spacing > 0 { spacing } else { 0 };
            crowds(s, other, spacing) <==> {
                &&& s.layer == other.layer
                &&& s.net is None || other.net is None || s.net->0 != other.net->0
                &&& b.0 - a.2 < d && a.0 - b.2 < d
                &&& b.1 - a.3 < d && a.1 - b.3 < d
            }
        }),
{
}

/// What a cell covers: its outline, and where it has none its box.
pub open spec fn body(outline: Seq<Rect>, bbox: Rect) -> Seq<Rect> {
    if outline.len() > 0 {
        outline
    } else {
        seq![bbox]
    }
}

/// Two of the rectangles share area.
pub open spec fn collide(a: Seq<Rect>, b: Seq<Rect>) -> bool {
    exists|i: int, j: int|
        0 <= i < a.len() && 0 <= j < b.len() && share_area(
            rt(#[trigger] a[i]),
            rt(#[trigger] b[j]),
        )
}

/// A fixed instance stands in a cell's way exactly where it is another, counts by its box, and not only the two
/// boxes share area but what the two cover does.
pub proof fn law_bodies_collide(name: Seq<char>, cell: Rect, outline: Seq<Rect>, b: BlockerView)
    ensures
        hits_instance(name, cell, outline, b) <==> {
            &&& b.by_box && b.name != name
            &&& share_area(rt(cell), rt(b.bbox))
            &&& collide(body(b.outline, b.bbox), body(outline, cell))
        },
{
    let (x, y) = (body(b.outline, b.bbox), body(outline, cell));
    if hits_instance(name, cell, outline, b) {
        if b.outline.len() > 0 && outline.len() > 0 {
            let i = choose|i: int|
                0 <= i < b.outline.len() && meets_any(#[trigger] b.outline[i], outline);
            let j = choose|j: int|
                0 <= j < outline.len() && share_area(rt(b.outline[i]), rt(#[trigger] outline[j]));
            assert(share_area(rt(x[i]), rt(y[j])));
        } else if b.outline.len() > 0 {
            let i = choose|i: int|
                0 <= i < b.outline.len() && share_area(rt(cell), rt(#[trigger] b.outline[i]));
            assert(share_area(rt(x[i]), rt(y[0])));
        } else if outline.len() > 0 {
            let j = choose|j: int|
                0 <= j < outline.len() && share_area(rt(b.bbox), rt(#[trigger] outline[j]));
            assert(share_area(rt(x[0]), rt(y[j])));
        } else {
            assert(share_area(rt(x[0]), rt(y[0])));
        }
    }
    if collide(x, y) {
        let (i, j) = choose|i: int, j: int|
            0 <= i < x.len() && 0 <= j < y.len() && share_area(
                rt(#[trigger] x[i]),
                rt(#[trigger] y[j]),
            );
        if b.outline.len() > 0 && outline.len() > 0 {
            assert(share_area(rt(b.outline[i]), rt(outline[j])));
            assert(meets_any(b.outline[i], outline));
        } else if b.outline.len() > 0 {
            assert(share_area(rt(cell), rt(b.outline[i])));
        } else if outline.len() > 0 {
            assert(share_area(rt(b.bbox), rt(outline[j])));
        }
    }
}

/// The first blockage that shares area with a cell refuses it, and says so, with the area they share.
pub proof fn law_first_blockage_refuses(cell: Rect, blockages: Seq<Rect>, i: int)
    requires
        0 <= i < blockages.len(),
        share_area(rt(cell), rt(blockages[i])),
        forall|k: int| 0 <= k < i ==> !share_area(rt(cell), rt(#[trigger] blockages[k])),
    ensures
        by_blockage(cell, blockages) matches Some(r) && r.reason == ReasonView::Blockage && r.blocker
            == blockages[i] && r.overlap == overlap_rect(cell, blockages[i]),
    decreases i,
{
    if i > 0 {
        let rest = blockages.drop_first();
        assert(!share_area(rt(cell), rt(blockages[0])));
        assert forall|k: int| 0 <= k < i - 1 implies !share_area(
            rt(cell),
            rt(#[trigger] rest[k]),
        ) by {
            assert(!share_area(rt(cell), rt(blockages[k + 1])));
        }
        law_first_blockage_refuses(cell, rest, i - 1);
    }
}

/// The first instance that stands in a cell's way refuses it, by its name and box, with the area they share.
pub proof fn law_first_instance_refuses(
    name: Seq<char>,
    cell: Rect,
    outline: Seq<Rect>,
    blockers: Seq<BlockerView>,
    i: int,
)
    requires
        0 <= i < blockers.len(),
        hits_instance(name, cell, outline, blockers[i]),
        forall|k: int| 0 <= k < i ==> !hits_instance(name, cell, outline, #[trigger] blockers[k]),
    ensures
        by_instance(name, cell, outline, blockers) matches Some(r) && r.reason
            == ReasonView::Instance(blockers[i].name) && r.blocker == blockers[i].bbox && r.overlap
            == overlap_rect(cell, blockers[i].bbox),
    decreases i,
{
    if i > 0 {
        let rest = blockers.drop_first();
        assert(!hits_instance(name, cell, outline, blockers[0]));
        assert forall|k: int| 0 <= k < i - 1 implies !hits_instance(
            name,
            cell,
            outline,
            #[trigger] rest[k],
        ) by {
            assert(!hits_instance(name, cell, outline, blockers[k + 1]));
        }
        law_first_instance_refuses(name, cell, outline, rest, i - 1);
    }
}

/// A refusal for want of clearance names a blocker that is not the cell itself and the layer, and points at the
/// shape that is crowded, with the area it shares with the cell's box.
pub open spec fn names_the_crowded(
    r: RefusalView,
    name: Seq<char>,
    cell: Rect,
    s: ShapeView,
    b: BlockerView,
    other: ShapeView,
) -> bool {
    &&& b.name != name
    &&& r.reason == (ReasonView::Layer { blocker: b.name, layer: s.layer })
    &&& r.blocker == other.rect
    &&& r.overlap == overlap_rect(cell, other.rect)
}

/// A refusal for want of clearance is for a shape of the cell that crowds a shape of another.
pub proof fn law_crowded_refusal(
    name: Seq<char>,
    cell: Rect,
    shapes: Seq<ShapeView>,
    blockers: Seq<BlockerView>,
    spacing_of: spec_fn(Seq<char>) -> i32,
)
    requires
        by_layer(name, cell, shapes, blockers, spacing_of) is Some,
    ensures
        exists|i: int, j: int, k: int|
            0 <= i < shapes.len() && 0 <= j < blockers.len() && 0 <= k < blockers[j].shapes.len()
                && crowds(
                #[trigger] shapes[i],
                #[trigger] blockers[j].shapes[k],
                spacing_of(shapes[i].layer) as int,
            ) && names_the_crowded(
                by_layer(name, cell, shapes, blockers, spacing_of)->0,
                name,
                cell,
                shapes[i],
                blockers[j],
                blockers[j].shapes[k],
            ),
    decreases shapes.len(),
{
    let s = shapes[0];
    let spacing = spacing_of(s.layer) as int;
    let r = by_layer(name, cell, shapes, blockers, spacing_of)->0;
    if by_blocker(name, cell, s, spacing, blockers) is Some {
        let (j, k) = lemma_crowded_by(name, cell, s, spacing, blockers);
        assert(crowds(shapes[0], blockers[j].shapes[k], spacing));
        assert(names_the_crowded(r, name, cell, shapes[0], blockers[j], blockers[j].shapes[k]));
    } else {
        let rest = shapes.drop_first();
        law_crowded_refusal(name, cell, rest, blockers, spacing_of);
        let (i, j, k) = choose|i: int, j: int, k: int|
            0 <= i < rest.len() && 0 <= j < blockers.len() && 0 <= k < blockers[j].shapes.len()
                && crowds(
                #[trigger] rest[i],
                #[trigger] blockers[j].shapes[k],
                spacing_of(rest[i].layer) as int,
            ) && names_the_crowded(
                by_layer(name, cell, rest, blockers, spacing_of)->0,
                name,
                cell,
                rest[i],
                blockers[j],
                blockers[j].shapes[k],
            );
        assert(rest[i] == shapes[i + 1]);
        assert(crowds(
            shapes[i + 1],
            blockers[j].shapes[k],
            spacing_of(shapes[i + 1].layer) as int,
        ));
    }
}

proof fn lemma_crowded_by(
    name: Seq<char>,
    cell: Rect,
    s: ShapeView,
    spacing: int,
    blockers: Seq<BlockerView>,
) -> (at: (int, int))
    requires
        by_blocker(name, cell, s, spacing, blockers) is Some,
    ensures
        0 <= at.0 < blockers.len(),
        0 <= at.1 < blockers[at.0].shapes.len(),
        crowds(s, blockers[at.0].shapes[at.1], spacing),
        names_the_crowded(
            by_blocker(name, cell, s, spacing, blockers)->0,
            name,
            cell,
            s,
            blockers[at.0],
            blockers[at.0].shapes[at.1],
        ),
    decreases blockers.len(),
{
    let b = blockers[0];
    if b.name != name && by_shape(cell, s, spacing, b, b.shapes) is Some {
        let k = lemma_crowded_shape(cell, s, spacing, b, b.shapes);
        (0, k)
    } else {
        let rest = blockers.drop_first();
        let (j, k) = lemma_crowded_by(name, cell, s, spacing, rest);
        assert(rest[j] == blockers[j + 1]);
        (j + 1, k)
    }
}

proof fn lemma_crowded_shape(
    cell: Rect,
    s: ShapeView,
    spacing: int,
    b: BlockerView,
    others: Seq<ShapeView>,
) -> (k: int)
    requires
        by_shape(cell, s, spacing, b, others) is Some,
    ensures
        0 <= k < others.len(),
        crowds(s, others[k], spacing),
        by_shape(cell, s, spacing, b, others) == Some(layer_refusal(cell, s, b, others[k])),
    decreases others.len(),
{
    if crowds(s, others[0], spacing) {
        0
    } else {
        let k = lemma_crowded_shape(cell, s, spacing, b, others.drop_first());
        assert(others.drop_first()[k] == others[k + 1]);
        k + 1
    }
}

/// A blockage refuses before an instance does, and an instance before a want of clearance.
pub proof fn law_order_of_refusals(
    name: Seq<char>,
    cell: Rect,
    outline: Seq<Rect>,
    shapes: Seq<ShapeView>,
    blockers: Seq<BlockerView>,
    blockages: Seq<Rect>,
    spacing_of: spec_fn(Seq<char>) -> i32,
)
    ensures
        ({
            let r = refusal(name, cell, outline, shapes, blockers, blockages, spacing_of);
            let stopped = exists|i: int|
                0 <= i < blockages.len() && share_area(rt(cell), rt(#[trigger] blockages[i]));
            let barred = exists|i: int|
                0 <= i < blockers.len() && hits_instance(name, cell, outline, #[trigger] blockers[i]);
            &&& stopped ==> r == by_blockage(cell, blockages) && r is Some
            &&& !stopped && barred ==> r == by_instance(name, cell, outline, blockers) && r is Some
            &&& !stopped && !barred ==> r == by_layer(name, cell, shapes, blockers, spacing_of)
        }),
{
    if exists|i: int|
        0 <= i < blockages.len() && share_area(rt(cell), rt(#[trigger] blockages[i])) {
        let i = choose|i: int|
            0 <= i < blockages.len() && share_area(rt(cell), rt(#[trigger] blockages[i]));
        if by_blockage(cell, blockages) is None {
            lemma_blockage_clear(cell, blockages, i);
        }
    } else {
        lemma_no_blockage(cell, blockages);
        if exists|i: int|
            0 <= i < blockers.len() && hits_instance(name, cell, outline, #[trigger] blockers[i]) {
            let i = choose|i: int|
                0 <= i < blockers.len() && hits_instance(
                    name,
                    cell,
                    outline,
                    #[trigger] blockers[i],
                );
            if by_instance(name, cell, outline, blockers) is None {
                lemma_instance_clear(name, cell, outline, blockers, i);
            }
        } else {
            lemma_no_instance(name, cell, outline, blockers);
        }
    }
}

/// An outline is made of the shapes on the layers that count, each in its turn.
pub proof fn law_outline_shapes(
    a: Seq<ShapeView>,
    b: Seq<ShapeView>,
    s: ShapeView,
    keep: spec_fn(Seq<char>) -> bool,
)
    ensures
        rects_on(a + b, keep) == rects_on(a, keep) + rects_on(b, keep),
        keep(s.layer) ==> rects_on(seq![s], keep) == seq![s.rect],
        !keep(s.layer) ==> rects_on(seq![s], keep).len() == 0,
    decreases b.len(),
{
    let one = seq![s];
    assert(one.drop_last() =~= Seq::<ShapeView>::empty());
    assert(rects_on(one.drop_last(), keep) =~= Seq::<Rect>::empty());
    assert(rects_on(one, keep) =~= if keep(s.layer) {
        seq![s.rect]
    } else {
        Seq::<Rect>::empty()
    });
    if b.len() == 0 {
        assert(a + b =~= a);
        assert(rects_on(a, keep) + rects_on(b, keep) =~= rects_on(a, keep));
    } else {
        law_outline_shapes(a, b.drop_last(), s, keep);
        assert((a + b).drop_last() =~= a + b.drop_last());
        assert(rects_on(a + b, keep) =~= rects_on(a, keep) + rects_on(b, keep));
    }
}

/// A shape moves with its cell: a point lies in it exactly where that point, where the cell puts it, lies in the
/// shape where the cell puts it. The master as a whole fills the cell from its corner on.
pub proof fn law_shape_moves_with_its_cell(
    r: (int, int, int, int),
    master: (int, int),
    orient: Orient,
    at: (int, int),
    p: (int, int),
)
    requires
        r.0 <= r.2,
        r.1 <= r.3,
        master.0 >= 0,
        master.1 >= 0,
    ensures
        ({
            let t = transformed(r, master, orient, at);
            let q = mapped(p, master, orient);
            (r.0 <= p.0 <= r.2 && r.1 <= p.1 <= r.3) <==> (t.0 <= q.0 + at.0 <= t.2 && t.1 <= q.1
                + at.1 <= t.3)
        }),
        ({
            let whole = transformed((0, 0, master.0, master.1), master, orient, at);
            let far = orient.image(master);
            &&& whole.0 == at.0 && whole.1 == at.1
            &&& whole.2 - whole.0 == if far.0 < 0 { -far.0 } else { far.0 }
            &&& whole.3 - whole.1 == if far.1 < 0 { -far.1 } else { far.1 }
        }),
{
}

} // verus!
