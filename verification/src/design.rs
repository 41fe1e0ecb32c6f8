//! What a design holds, as plain values: its sites, masters and rows, the shapes of its cells, and
//! what stands in the way of a new one.

use crate::clearance::{
    blocker_views, follows_on_layers, outline_of, rects_on, shape_views, total_on_layers,
    transformed, Blocker, BlockerView, Shape, ShapeView,
};
use crate::geom::{rt, Rect};
use crate::orient::Orient;
use crate::place::RowGeom;
use crate::ring::Site;
use crate::spread::{held, hold};
use crate::text::{chars_of, concat, decimal, push_int, starts_with};
use vstd::prelude::*;
use vstd::string::*;

verus! {

/// A rectangle held within the machine's range.
pub open spec fn held_rect(r: (int, int, int, int)) -> Rect {
    (held(r.0) as i32, held(r.1) as i32, held(r.2) as i32, held(r.3) as i32)
}

/// The complaint about something the design does not have.
pub open spec fn missing(kind: Seq<char>, name: Seq<char>) -> Seq<char> {
    kind + name + "` in this design"@
}

pub(crate) fn absent(kind: &str, name: &str) -> (e: String)
    ensures
        e@ == missing(kind@, name@),
{
    let mut e = concat(kind, name);
    e.append("` in this design");
    e
}

/// A site of the design, failing where it has no such site.
///
/// A missing site is a usage error, not an empty ring: silently building nothing would look like a
/// design that cannot carry a ring.
pub fn site(name: &str, width: i32, height: i32) -> (r: Result<Site, String>)
    ensures
        r is Ok <==> width > 0 && height > 0,
        r matches Ok(s) ==> s.name@ == name@ && s.width == width && s.height == height,
        r matches Err(e) ==> e@ == missing("no site named `"@, name@),
{
    if width <= 0 || height <= 0 {
        return Err(absent("no site named `", name));
    }
    Ok(Site { name: name.to_owned(), width, height })
}

/// The size of a master, failing where the design has no such master.
pub fn master_size(master: &str, width: i32, height: i32) -> (r: Result<(i32, i32), String>)
    ensures
        r is Ok <==> width > 0 && height > 0,
        r matches Ok(s) ==> s == (width, height),
        r matches Err(e) ==> e@ == missing("no master named `"@, master@),
{
    if width <= 0 || height <= 0 {
        return Err(absent("no master named `", master));
    }
    Ok((width, height))
}

/// The orientation of a spelling, or none at all for what is no spelling.
pub open spec fn orient_or_r0(s: Seq<char>, o: Orient) -> bool {
    s == o.odb_name() || (o == Orient::R0 && forall|x: Orient| s != #[trigger] x.odb_name())
}

/// The orientation of a spelling; what is no spelling counts as not turned.
pub fn orient_of(s: &str) -> (o: Orient)
    ensures
        orient_or_r0(s@, o),
{
    match Orient::parse(s) {
        Some(o) => o,
        None => Orient::R0,
    }
}

/// A row of the design, if it has one: a row without sites is none.
pub fn read_row(
    name: &str,
    bbox: Rect,
    orient: &str,
    origin: (i32, i32),
    spacing: i32,
    sites: i32,
) -> (r: Option<RowGeom>)
    ensures
        r is Some <==> spacing > 0 && sites > 0,
        r matches Some(row) ==> row.name@ == name@ && row.bbox == bbox && orient_or_r0(
            orient@,
            row.orient,
        ) && row.origin == origin && row.spacing == spacing && row.site_count == sites,
{
    if spacing <= 0 || sites <= 0 {
        return None;
    }
    Some(
        RowGeom {
            name: name.to_owned(),
            bbox,
            orient: orient_of(orient),
            origin,
            spacing,
            site_count: sites,
        },
    )
}

/// A piece of a master's metal: its layer, and its place on the master.
pub type Metal = (String, Rect);

/// A piece of metal where a placed cell puts it. It carries no net.
pub open spec fn shape_at(
    b: (Seq<char>, Rect),
    size: (i32, i32),
    orient: Orient,
    at: (i32, i32),
) -> ShapeView {
    ShapeView {
        layer: b.0,
        rect: held_rect(
            transformed(
                rt(b.1),
                (size.0 as int, size.1 as int),
                orient,
                (at.0 as int, at.1 as int),
            ),
        ),
        net: None,
    }
}

pub open spec fn box_views(boxes: Seq<Metal>) -> Seq<(Seq<char>, Rect)> {
    Seq::new(boxes.len(), |i: int| (boxes[i].0@, boxes[i].1))
}

/// A cell's shapes where it is placed; a cell without a size has none.
pub open spec fn shapes_at(
    boxes: Seq<(Seq<char>, Rect)>,
    size: (i32, i32),
    orient: Orient,
    at: (i32, i32),
) -> Seq<ShapeView> {
    if size.0 <= 0 || size.1 <= 0 {
        Seq::empty()
    } else {
        Seq::new(boxes.len(), |i: int| shape_at(boxes[i], size, orient, at))
    }
}

fn place_rect(r: Rect, size: (i32, i32), orient: Orient, at: (i32, i32)) -> (out: Rect)
    ensures
        out == held_rect(
            transformed(
                rt(r),
                (size.0 as int, size.1 as int),
                orient,
                (at.0 as int, at.1 as int),
            ),
        ),
{
    let (ax, ay) = crate::clearance::map_point(r.0, r.1, size, orient);
    let (bx, by) = crate::clearance::map_point(r.2, r.3, size, orient);
    let (x, y): (i64, i64) = (at.0 as i64, at.1 as i64);
    let (left, right): (i64, i64) = if ax < bx { (ax, bx) } else { (bx, ax) };
    let (low, high): (i64, i64) = if ay < by { (ay, by) } else { (by, ay) };
    (hold(left + x), hold(low + y), hold(right + x), hold(high + y))
}

/// A master's shapes, moved to where a cell placed at `at` with this orientation would put them.
///
/// Obstructions and pin shapes together: the per-layer clearance check does not distinguish them,
/// and a cell's metal is its metal whichever collection it came from. Nets are not carried.
pub fn cell_shapes(
    boxes: &[Metal],
    size: (i32, i32),
    orient: Orient,
    at: (i32, i32),
) -> (out: Vec<Shape>)
    ensures
        shape_views(out@) == shapes_at(box_views(boxes@), size, orient, at),
{
    let mut out: Vec<Shape> = Vec::new();
    if size.0 <= 0 || size.1 <= 0 {
        assert(shape_views(out@) =~= Seq::empty());
        return out;
    }
    let ghost all = box_views(boxes@);
    let mut i: usize = 0;
    while i < boxes.len()
        invariant
            i <= boxes.len(),
            all == box_views(boxes@),
            out.len() == i,
            forall|k: int| 0 <= k < i ==> (#[trigger] out@[k])@ == shape_at(all[k], size, orient, at),
        decreases boxes.len() - i,
    {
        let rect = place_rect(boxes[i].1, size, orient, at);
        out.push(Shape { layer: boxes[i].0.clone(), rect, net: None });
        i += 1;
    }
    assert(shape_views(out@) =~= shapes_at(all, size, orient, at));
    out
}

/// An instance of the design: its placement status, its box, its master's class, its orientation,
/// and its master's metal and size.
#[derive(Debug)]
pub struct Instance {
    pub name: String,
    pub status: String,
    pub bbox: Option<Rect>,
    pub class: String,
    pub orient: String,
    pub boxes: Vec<Metal>,
    pub size: (i32, i32),
}

/// A routing obstruction: its layer's number and name, and its rectangle.
#[derive(Debug)]
pub struct Obstruction {
    pub number: i64,
    pub layer: String,
    pub rect: Rect,
}

/// An instance that is committed to its place.
pub open spec fn is_fixed(status: Seq<char>) -> bool {
    status == "FIRM"@ || status == "LOCKED"@ || status == "COVER"@
}

/// A master over the die rather than in the ring.
pub open spec fn is_cover(class: Seq<char>) -> bool {
    "COVER"@.is_prefix_of(class)
}

/// The instance blocks: it is another than the cell being placed, is committed to its place, and has
/// one.
pub open spec fn blocks(i: Instance, skip: Seq<char>) -> bool {
    i.name@ != skip && is_fixed(i.status@) && i.bbox is Some
}

/// How an instance blocks: an ordinary cell by box and outline, and one over the die by its shapes
/// per layer; never both.
pub open spec fn is_blocker_of(
    i: Instance,
    orient: Orient,
    overlap: spec_fn(Seq<char>) -> bool,
    b: BlockerView,
) -> bool {
    match i.bbox {
        None => false,
        Some(r) => {
            let shapes = shapes_at(box_views(i.boxes@), i.size, orient, (r.0, r.1));
            b == (BlockerView {
                name: i.name@,
                bbox: r,
                outline: rects_on(shapes, overlap),
                by_box: !is_cover(i.class@),
                shapes: if is_cover(i.class@) {
                    shapes
                } else {
                    Seq::empty()
                },
            })
        },
    }
}

/// The same for the orientation that the instance has.
pub open spec fn blocker_of(
    i: Instance,
    overlap: spec_fn(Seq<char>) -> bool,
    b: BlockerView,
) -> bool {
    exists|o: Orient| #[trigger] orient_or_r0(i.orient@, o) && is_blocker_of(i, o, overlap, b)
}

/// How a routing obstruction blocks: per layer.
pub open spec fn obstruction_blocker(o: Obstruction) -> BlockerView {
    BlockerView {
        name: "obstruction@"@ + decimal(o.number as int),
        bbox: o.rect,
        outline: Seq::empty(),
        by_box: false,
        shapes: seq![ShapeView { layer: o.layer@, rect: o.rect, net: None }],
    }
}

/// The instances that block, by their places.
pub open spec fn blocking(insts: Seq<Instance>, skip: Seq<char>) -> Seq<usize> {
    crate::lists::those(insts.len(), |i: usize| blocks(insts[i as int], skip))
}

/// Everything a cell must not land on: the instances that block and then the obstructions.
pub open spec fn are_blockers(
    insts: Seq<Instance>,
    obstructions: Seq<Obstruction>,
    skip: Seq<char>,
    overlap: spec_fn(Seq<char>) -> bool,
    out: Seq<BlockerView>,
) -> bool {
    let list = blocking(insts, skip);
    &&& out.len() == list.len() + obstructions.len()
    &&& forall|k: int|
        0 <= k < list.len() ==> blocker_of(insts[list[k] as int], overlap, #[trigger] out[k])
    &&& forall|k: int|
        0 <= k < obstructions.len() ==> #[trigger] out[list.len() + k] == obstruction_blocker(
            obstructions[k],
        )
}

fn does_block(i: &Instance, skip: &str) -> (b: bool)
    ensures
        b == blocks(*i, skip@),
{
    let status = i.status.as_str();
    *i.name.as_str() != *skip && (*status == *"FIRM" || *status == *"LOCKED" || *status == *"COVER")
        && i.bbox.is_some()
}

fn make_blocker<L: Fn(&str) -> bool>(i: &Instance, bbox: Rect, is_overlap: &L) -> (b: Blocker)
    requires
        i.bbox == Some(bbox),
        total_on_layers(*is_overlap),
    ensures
        forall|rule: spec_fn(Seq<char>) -> bool| #[trigger]
            follows_on_layers(*is_overlap, rule) ==> blocker_of(*i, rule, b@),
{
    let cover = starts_with(i.class.as_str(), "COVER");
    let orient = orient_of(i.orient.as_str());
    let shapes = cell_shapes(&i.boxes, i.size, orient, (bbox.0, bbox.1));
    let outline = outline_of(&shapes, is_overlap);
    let none: Vec<Shape> = Vec::new();
    assert(shape_views(none@) =~= Seq::empty());
    let b = Blocker {
        name: i.name.clone(),
        bbox,
        outline,
        by_box: !cover,
        shapes: if cover { shapes } else { none },
    };
    assert forall|rule: spec_fn(Seq<char>) -> bool| #[trigger]
        follows_on_layers(*is_overlap, rule) implies blocker_of(*i, rule, b@) by {
        assert(orient_or_r0(i.orient@, orient) && is_blocker_of(*i, orient, rule, b@));
    }
    b
}

fn make_obstruction(o: &Obstruction) -> (b: Blocker)
    ensures
        b@ == obstruction_blocker(*o),
{
    let mut name = "obstruction@".to_owned();
    push_int(&mut name, o.number);
    let mut shapes: Vec<Shape> = Vec::new();
    shapes.push(Shape { layer: o.layer.clone(), rect: o.rect, net: None });
    let b = Blocker { name, bbox: o.rect, outline: Vec::new(), by_box: false, shapes };
    assert(b@.shapes =~= obstruction_blocker(*o).shapes);
    assert(b@.outline =~= Seq::empty());
    b
}

/// Everything a cell must not land on.
///
/// Only instances committed to their places block: a merely placed cell is not yet committed. A
/// master over the die does not block by its box: a bump above a corner is not in its way. Routing
/// obstructions take part in the per-layer check, not the box one.
///
/// `skip` is the cell being placed: an instance that already exists must not block itself, or
/// re-running a placement would refuse the position it already holds.
pub fn blockers<L: Fn(&str) -> bool>(
    insts: &[Instance],
    obstructions: &[Obstruction],
    skip: &str,
    is_overlap: &L,
) -> (out: Vec<Blocker>)
    requires
        total_on_layers(*is_overlap),
    ensures
        forall|rule: spec_fn(Seq<char>) -> bool| #[trigger]
            follows_on_layers(*is_overlap, rule) ==> are_blockers(
                insts@,
                obstructions@,
                skip@,
                rule,
                blocker_views(out@),
            ),
{
    let ghost cond = |i: usize| blocks(insts@[i as int], skip@);
    let mut out: Vec<Blocker> = Vec::new();
    let mut i: usize = 0;
    while i < insts.len()
        invariant
            i <= insts.len(),
            total_on_layers(*is_overlap),
            cond == (|i: usize| blocks(insts@[i as int], skip@)),
            out.len() == crate::lists::those(i as nat, cond).len(),
            forall|rule: spec_fn(Seq<char>) -> bool, k: int|
                #![trigger follows_on_layers(*is_overlap, rule), out@[k]]
                follows_on_layers(*is_overlap, rule) && 0 <= k < out.len() ==> blocker_of(
                    insts@[crate::lists::those(i as nat, cond)[k] as int],
                    rule,
                    out@[k]@,
                ),
        decreases insts.len() - i,
    {
        if does_block(&insts[i], skip) {
            if let Some(bbox) = insts[i].bbox {
                let b = make_blocker(&insts[i], bbox, is_overlap);
                out.push(b);
            }
        }
        i += 1;
    }
    let ghost list = blocking(insts@, skip@);
    let ghost n = out@.len();
    let ghost cells = out@;
    i = 0;
    while i < obstructions.len()
        invariant
            i <= obstructions.len(),
            n == cells.len(),
            out.len() == n + i,
            forall|k: int| 0 <= k < n ==> #[trigger] out@[k] == cells[k],
            forall|k: int|
                0 <= k < i ==> (#[trigger] out@[n + k])@ == obstruction_blocker(obstructions@[k]),
        decreases obstructions.len() - i,
    {
        let ghost before = out@;
        out.push(make_obstruction(&obstructions[i]));
        assert forall|k: int| 0 <= k < i + 1 implies (#[trigger] out@[n + k])@
            == obstruction_blocker(obstructions@[k]) by {
            if k < i {
                assert(out@[n + k] == before[n + k]);
            }
        }
        i += 1;
    }
    assert forall|rule: spec_fn(Seq<char>) -> bool| #[trigger]
        follows_on_layers(*is_overlap, rule) implies are_blockers(
        insts@,
        obstructions@,
        skip@,
        rule,
        blocker_views(out@),
    ) by {
        let views = blocker_views(out@);
        assert forall|k: int| 0 <= k < list.len() implies blocker_of(
            insts@[list[k] as int],
            rule,
            #[trigger] views[k],
        ) by {
            assert(views[k] == out@[k]@);
            assert(out@[k] == cells[k]);
            assert(blocker_of(insts@[list[k] as int], rule, cells[k]@));
        }
        assert forall|k: int| 0 <= k < obstructions@.len() implies #[trigger] views[list.len() + k]
            == obstruction_blocker(obstructions@[k]) by {
            assert(views[list.len() + k] == out@[n + k]@);
        }
    }
    out
}

/// A net of a pad: its name, its signal type, and its terminals as `instance/pin`.
#[derive(Debug)]
pub struct PadNet {
    pub net: String,
    pub sig_type: String,
    pub terms: Vec<String>,
}

/// The net is one that a pad may be aligned by: a supply net is not.
pub open spec fn aligns(n: PadNet) -> bool {
    n.net@.len() > 0 && n.sig_type@ != "POWER"@ && n.sig_type@ != "GROUND"@
}

/// The part of a terminal's name before its last slash.
pub open spec fn owner_of(term: Seq<char>) -> Option<Seq<char>>
    decreases term.len(),
{
    if term.len() == 0 {
        None
    } else if term.last() == '/' {
        Some(term.drop_last())
    } else {
        owner_of(term.drop_last())
    }
}

/// The instance a terminal belongs to.
///
/// Split on the last slash: a terminal reads `instance/pin` and an instance name can itself be
/// hierarchical.
pub fn owner(term: &str) -> (o: Option<String>)
    ensures
        crate::text::text_of(o) == owner_of(term@),
{
    let chars = chars_of(term);
    let mut i: usize = chars.len();
    assert(chars@.take(i as int) =~= chars@);
    while i > 0
        invariant
            i <= chars.len(),
            chars@ == term@,
            owner_of(chars@) == owner_of(chars@.take(i as int)),
        decreases i,
    {
        assert(chars@.take(i as int).drop_last() =~= chars@.take(i - 1));
        if chars[i - 1] == '/' {
            assert(term@.subrange(0, i - 1) =~= chars@.take(i - 1));
            return Some(term.substring_char(0, i - 1).to_owned());
        }
        i -= 1;
    }
    None
}

/// A terminal of the net belongs to a cell over the die.
pub open spec fn reaches(n: PadNet, cover: spec_fn(Seq<char>) -> bool) -> bool {
    exists|k: int|
        0 <= k < n.terms@.len() && (owner_of((#[trigger] n.terms@[k])@) matches Some(o) && cover(o))
}

/// Does this pad share a non-supply net with a bump?
///
/// Supply nets do not count: a pad and a bump on a supply are expected to meet through the power
/// grid, and treating that as an alignment request would align the whole ring to the power bumps.
pub fn connects_to_a_bump<C: Fn(&str) -> bool>(nets: &[PadNet], is_cover_cell: &C) -> (b: bool)
    requires
        total_on_layers(*is_cover_cell),
    ensures
        forall|rule: spec_fn(Seq<char>) -> bool| #[trigger]
            follows_on_layers(*is_cover_cell, rule) ==> b == exists|i: int|
                0 <= i < nets.len() && aligns(#[trigger] nets@[i]) && reaches(nets@[i], rule),
{
    let mut i: usize = 0;
    while i < nets.len()
        invariant
            i <= nets.len(),
            total_on_layers(*is_cover_cell),
            forall|rule: spec_fn(Seq<char>) -> bool| #[trigger]
                follows_on_layers(*is_cover_cell, rule) ==> forall|k: int|
                    0 <= k < i ==> !(aligns(#[trigger] nets@[k]) && reaches(nets@[k], rule)),
        decreases nets.len() - i,
    {
        let n = &nets[i];
        if !n.net.as_str().is_empty() && *n.sig_type.as_str() != *"POWER" && *n.sig_type.as_str()
            != *"GROUND" {
            let mut k: usize = 0;
            while k < n.terms.len()
                invariant
                    i < nets.len(),
                    *n == nets@[i as int],
                    aligns(*n),
                    k <= n.terms.len(),
                    total_on_layers(*is_cover_cell),
                    forall|rule: spec_fn(Seq<char>) -> bool| #[trigger]
                        follows_on_layers(*is_cover_cell, rule) ==> forall|m: int|
                            0 <= m < k ==> !(owner_of((#[trigger] n.terms@[m])@) matches Some(o)
                                && rule(o)),
                decreases n.terms.len() - k,
            {
                if let Some(o) = owner(n.terms[k].as_str()) {
                    if is_cover_cell(o.as_str()) {
                        assert forall|rule: spec_fn(Seq<char>) -> bool| #[trigger]
                            follows_on_layers(*is_cover_cell, rule) implies exists|i: int|
                            0 <= i < nets.len() && aligns(#[trigger] nets@[i]) && reaches(
                                nets@[i],
                                rule,
                            ) by {
                            assert(owner_of(n.terms@[k as int]@) matches Some(o) && rule(o));
                            assert(aligns(nets@[i as int]) && reaches(nets@[i as int], rule));
                        }
                        return true;
                    }
                }
                k += 1;
            }
        }
        i += 1;
    }
    false
}

/// The instance a terminal belongs to is named by all that comes before its last slash.
pub proof fn law_owner(instance: Seq<char>, pin: Seq<char>)
    requires
        forall|i: int| 0 <= i < pin.len() ==> #[trigger] pin[i] != '/',
    ensures
        owner_of(instance + seq!['/'] + pin) == Some(instance),
        owner_of(pin) is None,
    decreases pin.len(),
{
    let all = instance + seq!['/'] + pin;
    if pin.len() == 0 {
        assert(all.drop_last() =~= instance);
        assert(all.last() == '/');
    } else {
        let head = pin.drop_last();
        assert forall|i: int| 0 <= i < head.len() implies #[trigger] head[i] != '/' by {
            assert(pin[i] == head[i]);
        }
        law_owner(instance, head);
        assert(pin[pin.len() - 1] == pin.last());
        assert(all.drop_last() =~= instance + seq!['/'] + head);
        assert(all.last() == pin.last());
    }
}

/// What blocks: an instance other than the cell being placed that has a place and is committed to it.
pub proof fn law_what_blocks(insts: Seq<Instance>, skip: Seq<char>, t: usize)
    requires
        insts.len() <= usize::MAX,
    ensures
        blocking(insts, skip).contains(t) <==> {
            let i = insts[t as int];
            &&& t < insts.len()
            &&& i.name@ != skip && i.bbox is Some
            &&& i.status@ == "FIRM"@ || i.status@ == "LOCKED"@ || i.status@ == "COVER"@
        },
        crate::lists::increasing(blocking(insts, skip)),
{
    crate::lists::lemma_those(insts.len(), |i: usize| blocks(insts[i as int], skip));
}

/// A cell over the die blocks by its shapes and not by its box, any other by its box and not by its shapes; an
/// obstruction by its one shape.
pub proof fn law_blocks_one_way(
    i: Instance,
    overlap: spec_fn(Seq<char>) -> bool,
    b: BlockerView,
    o: Obstruction,
)
    requires
        blocker_of(i, overlap, b),
    ensures
        b.name == i.name@ && i.bbox == Some(b.bbox),
        "COVER"@.is_prefix_of(i.class@) ==> !b.by_box && (i.size.0 > 0 && i.size.1 > 0
            ==> b.shapes.len() == i.boxes@.len()),
        !"COVER"@.is_prefix_of(i.class@) ==> b.by_box && b.shapes.len() == 0,
        ({
            let x = obstruction_blocker(o);
            !x.by_box && x.outline.len() == 0 && x.shapes.len() == 1 && x.shapes[0].layer
                == o.layer@ && x.shapes[0].rect == o.rect && x.bbox == o.rect
        }),
{
}

/// A cell's shapes are its master's metal, each piece on its own layer and where the cell puts it.
pub proof fn law_shapes_are_the_metal(
    boxes: Seq<(Seq<char>, Rect)>,
    size: (i32, i32),
    orient: Orient,
    at: (i32, i32),
    k: int,
)
    requires
        size.0 > 0 && size.1 > 0,
        0 <= k < boxes.len(),
    ensures
        ({
            let s = shapes_at(boxes, size, orient, at);
            let t = transformed(
                rt(boxes[k].1),
                (size.0 as int, size.1 as int),
                orient,
                (at.0 as int, at.1 as int),
            );
            &&& s.len() == boxes.len()
            &&& s[k].layer == boxes[k].0 && s[k].net is None
            &&& i32::MIN <= t.0 <= i32::MAX && i32::MIN <= t.1 <= i32::MAX && i32::MIN <= t.2
                <= i32::MAX && i32::MIN <= t.3 <= i32::MAX ==> rt(s[k].rect) == t
        }),
{
}

} // verus!
