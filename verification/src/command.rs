//! What each command decides, from its options and from plain values read out of the design.

use crate::bump::{is_bump_class, is_bump_master, Array, DEFAULT_PREFIX};
use crate::clearance::{
    blocker_views, follows_on_layers, follows_spacing, intersects, outline_of, rects_on, refusal,
    refusal_view, refuse, total_on_layers, total_spacing, Blocker, BlockerView, Refusal,
};
use crate::design::{absent, box_views, cell_shapes, master_size, missing, shapes_at, Metal};
use crate::geom::{fits_i32, min, rt, Rect};
use crate::options::{
    bad_rotation, count, key_views, number_of, required, ring_index, rotation, texts, value_of,
    words, words_of, Opts,
};
use crate::orient::Orient;
use crate::pads::{total_length, Pad, Track};
use crate::place::{
    corner_of, corner_placement, edge_of, mirror_base, oriented_size, place_in_row, quarter,
    share_area, snap_to_site, spot, Edge, Placement, PlacementView, RowGeom,
};
use crate::ring::{make_rows, Offsets, Rotations, Row, RowView, Site};
use crate::text::{concat, decimal, push_int};
use vstd::prelude::*;
use vstd::string::*;

verus! {

/// The commands there are.
#[derive(Debug, Clone, Copy, PartialEq, Eq, Structural)]
pub enum Verb {
    Describe,
    Help,
    MakeIoSites,
    PlaceCorners,
    PlacePad,
    PlacePads,
    MakeIoBumpArray,
    RemoveIoBump,
    RemoveIoBumpArray,
}

/// The command of a name.
pub open spec fn verb_of(name: Seq<char>) -> Option<Verb> {
    if name == "--describe"@ {
        Some(Verb::Describe)
    } else if name == "--help"@ || name == "-h"@ {
        Some(Verb::Help)
    } else if name == "make-io-sites"@ {
        Some(Verb::MakeIoSites)
    } else if name == "place-corners"@ {
        Some(Verb::PlaceCorners)
    } else if name == "place-pad"@ {
        Some(Verb::PlacePad)
    } else if name == "place-pads"@ {
        Some(Verb::PlacePads)
    } else if name == "make-io-bump-array"@ {
        Some(Verb::MakeIoBumpArray)
    } else if name == "remove-io-bump"@ {
        Some(Verb::RemoveIoBump)
    } else if name == "remove-io-bump-array"@ {
        Some(Verb::RemoveIoBumpArray)
    } else {
        None
    }
}

impl Verb {
    /// The command of a name.
    pub fn of(name: &str) -> (v: Option<Verb>)
        ensures
            v == verb_of(name@),
    {
        if *name == *"--describe" {
            Some(Verb::Describe)
        } else if *name == *"--help" || *name == *"-h" {
            Some(Verb::Help)
        } else if *name == *"make-io-sites" {
            Some(Verb::MakeIoSites)
        } else if *name == *"place-corners" {
            Some(Verb::PlaceCorners)
        } else if *name == *"place-pad" {
            Some(Verb::PlacePad)
        } else if *name == *"place-pads" {
            Some(Verb::PlacePads)
        } else if *name == *"make-io-bump-array" {
            Some(Verb::MakeIoBumpArray)
        } else if *name == *"remove-io-bump" {
            Some(Verb::RemoveIoBump)
        } else if *name == *"remove-io-bump-array" {
            Some(Verb::RemoveIoBumpArray)
        } else {
            None
        }
    }
}

/// Where the result is written: where the options say, or else over the design.
pub fn output_path<'a>(opts: &'a Opts) -> (p: &'a str)
    ensures
        p@ == (match value_of(opts@.keys, "out-odb"@) {
            Some(v) => v,
            None => opts.odb@,
        }),
{
    match opts.get("out-odb") {
        Some(v) => v,
        None => opts.odb.as_str(),
    }
}

/// The sites a ring is to be built from, and its inset as it was written.
#[derive(Debug)]
pub struct RingNames {
    pub horizontal: String,
    pub vertical: String,
    pub corner: String,
    pub offset: String,
}

/// The first of four values that is not given decides the complaint.
pub open spec fn ring_names_of(keys: Seq<(Seq<char>, Seq<char>)>) -> Result<
    (Seq<char>, Seq<char>, Seq<char>, Seq<char>),
    Seq<char>,
> {
    match value_of(keys, "horizontal-site"@) {
        None => Err(required("horizontal-site"@)),
        Some(h) => match value_of(keys, "vertical-site"@) {
            None => Err(required("vertical-site"@)),
            Some(v) => match value_of(keys, "corner-site"@) {
                None => Err(required("corner-site"@)),
                Some(c) => match value_of(keys, "offset"@) {
                    None => Err(required("offset"@)),
                    Some(o) => Ok((h, v, c, o)),
                },
            },
        },
    }
}

/// The sites a ring is to be built from, all of which have to be given.
pub fn ring_names(opts: &Opts) -> (r: Result<RingNames, String>)
    ensures
        match (r, ring_names_of(opts@.keys)) {
            (Ok(n), Ok(v)) => (n.horizontal@, n.vertical@, n.corner@, n.offset@) == v,
            (Err(e), Err(v)) => e@ == v,
            _ => false,
        },
{
    let horizontal = match opts.need("horizontal-site") {
        Ok(v) => v.to_owned(),
        Err(e) => {
            return Err(e);
        },
    };
    let vertical = match opts.need("vertical-site") {
        Ok(v) => v.to_owned(),
        Err(e) => {
            return Err(e);
        },
    };
    let corner = match opts.need("corner-site") {
        Ok(v) => v.to_owned(),
        Err(e) => {
            return Err(e);
        },
    };
    let offset = match opts.need("offset") {
        Ok(v) => v.to_owned(),
        Err(e) => {
            return Err(e);
        },
    };
    Ok(RingNames { horizontal, vertical, corner, offset })
}

/// What a ring is built from.
#[derive(Debug)]
pub struct RingRequest {
    pub die: Rect,
    pub horizontal: Site,
    pub vertical: Site,
    pub corner: Site,
    pub offsets: Offsets,
    pub rotations: Rotations,
    pub ring_index: i32,
    pub same_site: bool,
}

impl RingRequest {
    /// The ring that is asked for.
    pub open spec fn ring(self) -> Seq<RowView> {
        crate::ring::ring(
            self.die,
            self.horizontal,
            self.vertical,
            self.corner,
            self.offsets,
            self.rotations,
            self.ring_index as int,
            self.same_site,
        )
    }

    /// Build the ring, unless a row of it would lie outside of machine coordinates.
    pub fn build(&self) -> (rows: Option<Vec<Row>>)
        ensures
            rows is Some <==> crate::ring::rows_fit(self.ring()),
            rows matches Some(list) ==> crate::ring::row_views(list@) == self.ring(),
    {
        if crate::ring::ring_fits(
            self.die,
            &self.horizontal,
            &self.vertical,
            &self.corner,
            self.offsets,
            self.rotations,
            self.ring_index,
            self.same_site,
        ) {
            Some(
                make_rows(
                    self.die,
                    &self.horizontal,
                    &self.vertical,
                    &self.corner,
                    self.offsets,
                    self.rotations,
                    self.ring_index,
                    self.same_site,
                ),
            )
        } else {
            None
        }
    }
}

/// The rotation given under a name is this one.
pub open spec fn is_rotation(keys: Seq<(Seq<char>, Seq<char>)>, key: Seq<char>, o: Orient) -> bool {
    match value_of(keys, key) {
        None => o == Orient::R0,
        Some(v) => v == o.odb_name(),
    }
}

/// The complaint about what is given under a name for a rotation, where it is none.
pub open spec fn rotation_complaint(keys: Seq<(Seq<char>, Seq<char>)>, key: Seq<char>) -> Option<
    Seq<char>,
> {
    match value_of(keys, key) {
        None => None,
        Some(v) => if forall|o: Orient| v != #[trigger] o.odb_name() {
            Some(bad_rotation(key, v))
        } else {
            None
        },
    }
}

/// The ring index that is given; there is one ring where none is.
pub open spec fn index_of(keys: Seq<(Seq<char>, Seq<char>)>) -> Result<int, Seq<char>> {
    if value_of(keys, "ring-index"@) is None {
        Ok(-1)
    } else {
        number_of(keys, "ring-index"@)
    }
}

/// The first complaint about the options of a ring, if there is one.
pub open spec fn ring_complaint(keys: Seq<(Seq<char>, Seq<char>)>) -> Option<Seq<char>> {
    match index_of(keys) {
        Err(e) => Some(e),
        Ok(_) => match rotation_complaint(keys, "rotation-horizontal"@) {
            Some(e) => Some(e),
            None => match rotation_complaint(keys, "rotation-vertical"@) {
                Some(e) => Some(e),
                None => rotation_complaint(keys, "rotation-corner"@),
            },
        },
    }
}

/// What a ring is to be built from: the die, the three sites, one inset for every edge, and what the
/// options say of its index and its rotations. The two directions have the same site where they were
/// given the same name.
pub fn ring_request(
    opts: &Opts,
    die: Rect,
    offset: i32,
    horizontal: Site,
    vertical: Site,
    corner: Site,
) -> (r: Result<RingRequest, String>)
    ensures
        match r {
            Ok(q) => {
                &&& ring_complaint(opts@.keys) is None
                &&& index_of(opts@.keys) == Ok::<int, Seq<char>>(q.ring_index as int)
                &&& is_rotation(opts@.keys, "rotation-horizontal"@, q.rotations.horizontal)
                &&& is_rotation(opts@.keys, "rotation-vertical"@, q.rotations.vertical)
                &&& is_rotation(opts@.keys, "rotation-corner"@, q.rotations.corner)
                &&& q.die == die && q.horizontal == horizontal && q.vertical == vertical
                &&& q.corner == corner
                &&& q.offsets.west == offset && q.offsets.north == offset
                &&& q.offsets.east == offset && q.offsets.south == offset
                &&& q.same_site == (horizontal.name@ == vertical.name@)
            },
            Err(e) => ring_complaint(opts@.keys) == Some(e@),
        },
{
    let index: i32 = match ring_index(opts) {
        Ok(n) => n,
        Err(e) => {
            return Err(e);
        },
    };
    let across = match rotation(opts, "rotation-horizontal") {
        Ok(o) => o,
        Err(e) => {
            return Err(e);
        },
    };
    let down = match rotation(opts, "rotation-vertical") {
        Ok(o) => o,
        Err(e) => {
            return Err(e);
        },
    };
    let turn = match rotation(opts, "rotation-corner") {
        Ok(o) => o,
        Err(e) => {
            return Err(e);
        },
    };
    let same_site = horizontal.name == vertical.name;
    Ok(
        RingRequest {
            die,
            horizontal,
            vertical,
            corner,
            offsets: Offsets { west: offset, north: offset, east: offset, south: offset },
            rotations: Rotations { horizontal: across, vertical: down, corner: turn },
            ring_index: index,
            same_site,
        },
    )
}

/// The master a pad is placed with: the one that is given, or else the one it has; or a complaint,
/// where it has none, or has another than the one given.
pub open spec fn master_of(
    inst: Seq<char>,
    given: Option<Seq<char>>,
    existing: bool,
    have: Seq<char>,
) -> Result<Seq<char>, Seq<char>> {
    match given {
        None => {
            if existing {
                Ok(have)
            } else {
                Err("cannot create "@ + inst + " without --master"@)
            }
        },
        Some(m) => {
            if existing && have.len() > 0 && have != m {
                Err(
                    "master mismatch for "@ + inst + ": it is "@ + have + ", not "@ + m,
                )
            } else {
                Ok(m)
            }
        },
    }
}

/// Text or a complaint.
pub open spec fn text_view(r: Result<String, String>) -> Result<Seq<char>, Seq<char>> {
    match r {
        Ok(v) => Ok(v@),
        Err(e) => Err(e@),
    }
}

/// The master a pad is placed with.
///
/// A master that contradicts the instance already in the design is refused, rather than silently
/// re-mastering it.
pub fn choose_master(inst: &str, given: Option<&str>, existing: bool, have: &str) -> (r: Result<
    String,
    String,
>)
    ensures
        text_view(r) == master_of(
            inst@,
            (match given {
                Some(m) => Some(m@),
                None => None,
            }),
            existing,
            have@,
        ),
{
    match given {
        None => {
            if existing {
                Ok(have.to_owned())
            } else {
                let mut e = concat("cannot create ", inst);
                e.append(" without --master");
                Err(e)
            }
        },
        Some(m) => {
            if existing && !have.is_empty() && *have != *m {
                let mut e = concat("master mismatch for ", inst);
                e.append(": it is ");
                e.append(have);
                e.append(", not ");
                e.append(m);
                Err(e)
            } else {
                Ok(m.to_owned())
            }
        },
    }
}

/// The base orientation of a pad: mirrored where that is asked for.
pub open spec fn base_of(mirror: bool, edge: Edge, site: (i32, i32)) -> Orient {
    if !mirror {
        Orient::R0
    } else if !edge.across() && site.1 < site.0 {
        Orient::MX
    } else {
        Orient::MY
    }
}

/// The site a pad goes to.
pub open spec fn pad_site(location: i32, row: RowGeom, edge: Edge) -> int {
    if row.spacing <= 0 {
        0
    } else {
        crate::place::site_at(
            location - (if edge.across() {
                row.origin.0
            } else {
                row.origin.1
            }),
            row.spacing as int,
            row.site_count as int,
        )
    }
}

/// Where a pad at a location along a row goes.
pub open spec fn pad_spot(
    location: i32,
    row: RowGeom,
    edge: Edge,
    size: (i32, i32),
    base: Orient,
) -> (int, int) {
    spot(pad_site(location, row, edge), row, edge, size.0 as int, size.1 as int, base)
}

/// One pad at a location along a row, unless it would lie outside of machine coordinates.
pub fn pad_at(
    inst: &str,
    master: &str,
    location: i32,
    row: &RowGeom,
    edge: Edge,
    size: (i32, i32),
    mirror: bool,
    site: (i32, i32),
) -> (r: Option<Placement>)
    requires
        row.spacing > 0 ==> row.site_count >= 0,
    ensures
        ({
            let base = base_of(mirror, edge, site);
            let p = pad_spot(location, *row, edge, size, base);
            match r {
                Some(placed) => placed@ == (PlacementView {
                    name: inst@,
                    master: master@,
                    x: p.0,
                    y: p.1,
                    orient: base.composed(row.orient),
                }),
                None => !(fits_i32(p.0) && fits_i32(p.1)),
            }
        }),
{
    let base = if mirror { mirror_base(edge, site.0, site.1) } else { Orient::R0 };
    let index: i32 = snap_to_site(location, row, edge);
    if !crate::place::spot_fits(index, row, edge, size.0, size.1, base) {
        return None;
    }
    let (x, y, orient) = place_in_row(index, row, edge, size.0, size.1, base);
    Some(Placement { name: inst.to_owned(), master: master.to_owned(), x, y, orient })
}

/// How pads are to be spread: the most that may lie between two, and whether they were meant to be
/// aligned to bumps that none of them connects to.
pub open spec fn mode_of(mode: Seq<char>, connected: bool) -> Result<(Option<i32>, bool), Seq<char>> {
    if mode == "uniform"@ || (mode == "default"@ && !connected) {
        Ok((None, false))
    } else if mode == "linear"@ {
        Ok((Some(0i32), false))
    } else if mode == "bump_aligned"@ && !connected {
        Ok((None, true))
    } else if mode == "default"@ || mode == "bump_aligned"@ {
        Err("bump-aligned placement is not implemented"@)
    } else if mode == "placer"@ {
        Err("the annealing placer is not implemented"@)
    } else {
        Err("`"@ + mode + "` is not a placement mode"@)
    }
}

/// How pads are to be spread.
///
/// Aligning to bumps is the default once any pad connects to one, and degrades to spreading
/// uniformly when none do. Anything that genuinely needs a different placer is refused rather than
/// quietly placed by this one.
pub fn placement_mode(mode: &str, connected: bool) -> (r: Result<(Option<i32>, bool), String>)
    ensures
        match (r, mode_of(mode@, connected)) {
            (Ok(a), Ok(b)) => a == b,
            (Err(e), Err(v)) => e@ == v,
            _ => false,
        },
{
    if *mode == *"uniform" || (*mode == *"default" && !connected) {
        Ok((None, false))
    } else if *mode == *"linear" {
        Ok((Some(0), false))
    } else if *mode == *"bump_aligned" && !connected {
        Ok((None, true))
    } else if *mode == *"default" || *mode == *"bump_aligned" {
        Err("bump-aligned placement is not implemented".to_owned())
    } else if *mode == *"placer" {
        Err("the annealing placer is not implemented".to_owned())
    } else {
        let mut e = concat("`", mode);
        e.append("` is not a placement mode");
        Err(e)
    }
}

/// The instances to spread: there has to be one.
pub open spec fn insts_of(keys: Seq<(Seq<char>, Seq<char>)>) -> Result<Seq<Seq<char>>, Seq<char>> {
    match value_of(keys, "insts"@) {
        None => Err(required("insts"@)),
        Some(v) => {
            if words_of(v).len() == 0 {
                Err("place-pads requires a list of instances"@)
            } else {
                Ok(words_of(v))
            }
        },
    }
}

/// The instances to spread.
pub fn inst_list(opts: &Opts) -> (r: Result<Vec<String>, String>)
    ensures
        match (r, insts_of(opts@.keys)) {
            (Ok(a), Ok(b)) => texts(a@) == b,
            (Err(e), Err(v)) => e@ == v,
            _ => false,
        },
{
    let list = match opts.need("insts") {
        Ok(v) => words(v),
        Err(e) => {
            return Err(e);
        },
    };
    assert(list@.len() == texts(list@).len());
    if list.len() == 0 {
        return Err("place-pads requires a list of instances".to_owned());
    }
    Ok(list)
}

/// The complaint about pads that do not fit together.
pub open spec fn no_room(total: int, name: Seq<char>, room: int) -> Seq<char> {
    "the pads total "@ + decimal(total) + " units and "@ + name + " has room for "@ + decimal(room)
}

/// Whether the pads fit the row at all.
pub fn check_room(t: &Track, pads: &[Pad]) -> (r: Result<(), String>)
    requires
        fits_i32(total_length(*t, pads@)),
        fits_i32(t.to() - t.from()),
    ensures
        r is Ok <==> total_length(*t, pads@) <= t.to() - t.from(),
        r matches Err(e) ==> e@ == no_room(
            total_length(*t, pads@),
            t.row.name@,
            t.to() - t.from(),
        ),
{
    match crate::pads::fits(t, pads) {
        Ok(_) => Ok(()),
        Err((total, room)) => {
            let mut e = "the pads total ".to_owned();
            push_int(&mut e, total as i64);
            e.append(" units and ");
            e.append(t.row.name.as_str());
            e.append(" has room for ");
            push_int(&mut e, room as i64);
            Err(e)
        },
    }
}

/// The row a pad goes into: it has to be there, and to be one of the ring's edges.
pub fn pad_row(row: Option<RowGeom>, name: &str) -> (r: Result<(RowGeom, Edge), String>)
    ensures
        match (row, r) {
            (None, Err(e)) => e@ == "no row named `"@ + name@ + "`"@,
            (Some(g), Err(e)) => edge_of(g.name@) is None && e@ == "`"@ + name@
                + "` is not an IO row"@,
            (Some(g), Ok((h, edge))) => h == g && edge_of(g.name@) == Some(edge),
            _ => false,
        },
{
    match row {
        None => {
            let mut e = concat("no row named `", name);
            e.append("`");
            Err(e)
        },
        Some(g) => match g.edge() {
            Some(edge) => Ok((g, edge)),
            None => {
                let mut e = concat("`", name);
                e.append("` is not an IO row");
                Err(e)
            },
        },
    }
}

/// The track pads are spread along: its row has to be there, and to be one of the ring's edges. Its
/// granularity is the smaller side of the row's site.
pub fn pads_track(row: Option<RowGeom>, name: &str, site: (i32, i32)) -> (r: Result<Track, String>)
    ensures
        match (row, r) {
            (None, Err(e)) => e@ == "no row `"@ + name@ + "`"@,
            (Some(g), Err(e)) => edge_of(g.name@) is None && e@ == name@
                + " is not a recognized IO row"@,
            (Some(g), Ok(t)) => t.row == g && edge_of(g.name@) == Some(t.edge) && t.site_width
                == min(site.0 as int, site.1 as int),
            _ => false,
        },
{
    match row {
        None => {
            let mut e = concat("no row `", name);
            e.append("`");
            Err(e)
        },
        Some(g) => match g.edge() {
            Some(edge) => {
                let site_width: i32 = if site.0 < site.1 { site.0 } else { site.1 };
                Ok(Track { row: g, edge, site_width })
            },
            None => Err(concat(name, " is not a recognized IO row")),
        },
    }
}

/// A pad to spread: the instance has to be there, and its master to have a size.
pub fn pad_of(name: &str, master: &str, width: i32, height: i32) -> (r: Result<Pad, String>)
    ensures
        match r {
            Ok(p) => master@.len() > 0 && width > 0 && height > 0 && p.name@ == name@ && p.master@
                == master@ && p.size == (width, height),
            Err(e) => if master@.len() == 0 {
                e@ == missing("no instance named `"@, name@)
            } else {
                (width <= 0 || height <= 0) && e@ == "cannot measure master `"@ + master@ + "`: "@
                    + missing("no master named `"@, master@)
            },
        },
{
    if master.is_empty() {
        return Err(absent("no instance named `", name));
    }
    match master_size(master, width, height) {
        Ok(size) => Ok(Pad { name: name.to_owned(), master: master.to_owned(), size }),
        Err(why) => {
            let mut e = concat("cannot measure master `", master);
            e.append("`: ");
            e.append(why.as_str());
            Err(e)
        },
    }
}

/// A blocker bears on a row: it meets the row's box, or does not block by its own.
pub open spec fn bears_on(b: BlockerView, row: Rect) -> bool {
    share_area(rt(b.bbox), rt(row)) || !b.by_box
}

/// The blockers that bear on a row, in their order.
pub open spec fn bearing(list: Seq<BlockerView>, row: Rect) -> Seq<BlockerView>
    decreases list.len(),
{
    if list.len() == 0 {
        Seq::empty()
    } else if bears_on(list.last(), row) {
        bearing(list.drop_last(), row).push(list.last())
    } else {
        bearing(list.drop_last(), row)
    }
}

/// The blockers that bear on a row.
pub fn in_the_way(blockers: &[Blocker], row: Rect) -> (out: Vec<Blocker>)
    ensures
        blocker_views(out@) == bearing(blocker_views(blockers@), row),
{
    let ghost all = blocker_views(blockers@);
    let mut out: Vec<Blocker> = Vec::new();
    let mut i: usize = 0;
    assert(all.take(0) =~= Seq::<BlockerView>::empty());
    assert(blocker_views(out@) =~= bearing(all.take(0), row));
    while i < blockers.len()
        invariant
            i <= blockers.len(),
            all == blocker_views(blockers@),
            blocker_views(out@) == bearing(all.take(i as int), row),
        decreases blockers.len() - i,
    {
        assert(all.take(i + 1).drop_last() =~= all.take(i as int));
        assert(all.take(i + 1).last() == blockers@[i as int]@);
        if intersects(blockers[i].bbox, row) || !blockers[i].by_box {
            let ghost before = blocker_views(out@);
            out.push(blockers[i].clone());
            assert(blocker_views(out@) =~= before.push(blockers@[i as int]@));
        }
        i += 1;
    }
    assert(all.take(all.len() as int) =~= all);
    out
}

/// The box of a corner cell at its row's origin, from its master's size.
pub open spec fn corner_box(row: RowGeom, size: (i32, i32)) -> (int, int, int, int) {
    let (dx, dy) = if quarter(row.orient) {
        (size.1, size.0)
    } else {
        (size.0, size.1)
    };
    (row.origin.0 as int, row.origin.1 as int, row.origin.0 + dx, row.origin.1 + dy)
}

/// A corner cell and what is in its way, if anything is. Nothing is returned where its box would lie
/// outside of machine coordinates.
///
/// A corner that would land on something already there is skipped, not moved.
pub fn corner_at<L: Fn(&str) -> bool, F: Fn(&str) -> i32>(
    row: &RowGeom,
    master: &str,
    size: (i32, i32),
    metal: &[Metal],
    fixed: &[Blocker],
    stops: &[Rect],
    is_overlap: &L,
    spacing_of: &F,
) -> (r: Option<(Placement, Option<Refusal>)>)
    requires
        total_on_layers(*is_overlap),
        total_spacing(*spacing_of),
    ensures
        ({
            let b = corner_box(*row, size);
            let cell: Rect = (b.0 as i32, b.1 as i32, b.2 as i32, b.3 as i32);
            let shapes = shapes_at(box_views(metal@), size, row.orient, row.origin);
            match r {
                None => !(fits_i32(b.2) && fits_i32(b.3)),
                Some((p, why)) => {
                    &&& fits_i32(b.2) && fits_i32(b.3)
                    &&& p@ == corner_of(*row, master@)
                    &&& forall|
                        overlap: spec_fn(Seq<char>) -> bool,
                        clearance: spec_fn(Seq<char>) -> i32,
                    |
                        #![trigger follows_on_layers(*is_overlap, overlap), follows_spacing(*spacing_of, clearance)]
                        follows_on_layers(*is_overlap, overlap) && follows_spacing(
                            *spacing_of,
                            clearance,
                        ) ==> refusal_view(why) == refusal(
                            p@.name,
                            cell,
                            rects_on(shapes, overlap),
                            shapes,
                            blocker_views(fixed@),
                            stops@,
                            clearance,
                        )
                },
            }
        }),
{
    let p = corner_placement(row, master);
    let (dx, dy) = oriented_size(size.0, size.1, p.orient);
    let (right, top): (i64, i64) = (p.x as i64 + dx as i64, p.y as i64 + dy as i64);
    if right < i32::MIN as i64 || right > i32::MAX as i64 || top < i32::MIN as i64 || top
        > i32::MAX as i64 {
        return None;
    }
    let bbox: Rect = (p.x, p.y, right as i32, top as i32);
    let shapes = cell_shapes(metal, size, p.orient, (p.x, p.y));
    let outline = outline_of(&shapes, is_overlap);
    let why = refuse(p.name.as_str(), bbox, &outline, &shapes, fixed, stops, spacing_of);
    Some((p, why))
}

/// The complaint about a master that is no bump, if it is none.
pub open spec fn bump_complaint(master: Seq<char>, class: Seq<char>) -> Option<Seq<char>> {
    if class.len() == 0 {
        Some(missing("no master named `"@, master))
    } else if !is_bump_class(class) {
        Some(master + " is `"@ + class + "`, not a COVER BUMP"@)
    } else {
        None
    }
}

/// A check that passes or complains.
pub open spec fn complaint_of(r: Result<(), String>) -> Option<Seq<char>> {
    match r {
        Ok(_) => None,
        Err(e) => Some(e@),
    }
}

/// Refuse a master that is no bump, rather than placing it on the cover layer and leaving the
/// surprise for whoever reads the result.
pub fn check_bump(master: &str, class: &str) -> (r: Result<(), String>)
    ensures
        complaint_of(r) == bump_complaint(master@, class@),
{
    if class.is_empty() {
        return Err(absent("no master named `", master));
    }
    if !is_bump_master(class) {
        let mut e = concat(master, " is `");
        e.append(class);
        e.append("`, not a COVER BUMP");
        return Err(e);
    }
    Ok(())
}

/// The lower-left bump: it has to be given as a pair.
pub fn origin_pair(values: &[i32]) -> (r: Result<(i32, i32), String>)
    ensures
        match r {
            Ok(p) => values@ =~= seq![p.0, p.1],
            Err(e) => values.len() != 2 && e@ == "--origin must be specified as `x y`"@,
        },
{
    if values.len() == 2 {
        Ok((values[0], values[1]))
    } else {
        Err("--origin must be specified as `x y`".to_owned())
    }
}

/// The distance between bumps: one value means the same spacing on both axes.
pub fn pitch_pair(values: &[i32]) -> (r: Result<(i32, i32), String>)
    ensures
        match r {
            Ok(p) => values@ =~= seq![p.0, p.1] || (values@ =~= seq![p.0] && p.0 == p.1),
            Err(e) => values.len() != 1 && values.len() != 2 && e@
                == "--pitch must be specified as `deltax deltay` or `delta`"@,
        },
{
    if values.len() == 1 {
        Ok((values[0], values[0]))
    } else if values.len() == 2 {
        Ok((values[0], values[1]))
    } else {
        Err("--pitch must be specified as `deltax deltay` or `delta`".to_owned())
    }
}

/// The prefix of bump names that is given, or the default.
pub open spec fn prefix_of(keys: Seq<(Seq<char>, Seq<char>)>) -> Seq<char> {
    match value_of(keys, "prefix"@) {
        Some(v) => v,
        None => "BUMP_"@,
    }
}

/// What a bump array is to be made from.
pub fn bump_array(opts: &Opts, master: &str, origin: (i32, i32), pitch: (i32, i32)) -> (r: Result<
    Array,
    String,
>)
    ensures
        match r {
            Ok(a) => {
                &&& number_of(opts@.keys, "rows"@) == Ok::<int, Seq<char>>(a.rows as int)
                &&& number_of(opts@.keys, "columns"@) == Ok::<int, Seq<char>>(a.columns as int)
                &&& a.master@ == master@ && a.prefix@ == prefix_of(opts@.keys)
                &&& a.origin == origin && a.pitch == pitch
            },
            Err(e) => match number_of(opts@.keys, "rows"@) {
                Err(why) => e@ == why,
                Ok(_) => number_of(opts@.keys, "columns"@) == Err::<int, Seq<char>>(e@),
            },
        },
{
    let prefix = match opts.get("prefix") {
        Some(v) => v.to_owned(),
        None => DEFAULT_PREFIX.to_owned(),
    };
    let rows: i32 = match count(opts, "rows") {
        Ok(n) => n,
        Err(e) => {
            return Err(e);
        },
    };
    let columns: i32 = match count(opts, "columns") {
        Ok(n) => n,
        Err(e) => {
            return Err(e);
        },
    };
    Ok(Array { master: master.to_owned(), prefix, origin, rows, columns, pitch })
}

/// The instances of a master, in their order, from every instance with the master it has.
pub open spec fn instances(all: Seq<(Seq<char>, Seq<char>)>, master: Seq<char>) -> Seq<Seq<char>>
    decreases all.len(),
{
    if all.len() == 0 {
        Seq::empty()
    } else if all.last().1 == master {
        instances(all.drop_last(), master).push(all.last().0)
    } else {
        instances(all.drop_last(), master)
    }
}

/// The instances of a master.
pub fn instances_of(all: &[(String, String)], master: &str) -> (out: Vec<String>)
    ensures
        texts(out@) == instances(key_views(all@), master@),
{
    let ghost views = key_views(all@);
    let mut out: Vec<String> = Vec::new();
    let mut i: usize = 0;
    assert(views.take(0) =~= Seq::<(Seq<char>, Seq<char>)>::empty());
    assert(texts(out@) =~= instances(views.take(0), master@));
    while i < all.len()
        invariant
            i <= all.len(),
            views == key_views(all@),
            texts(out@) == instances(views.take(i as int), master@),
        decreases all.len() - i,
    {
        assert(views.take(i + 1).drop_last() =~= views.take(i as int));
        assert(views.take(i + 1).last() == (all@[i as int].0@, all@[i as int].1@));
        if *all[i].1.as_str() == *master {
            let ghost before = texts(out@);
            out.push(all[i].0.clone());
            assert(texts(out@) =~= before.push(all@[i as int].0@));
        }
        i += 1;
    }
    assert(views.take(views.len() as int) =~= views);
    out
}

/// Refuse to remove what is no bump.
///
/// Guarded by the same test as creation: without it a mistyped name that happens to hit a real cell
/// would delete a pad or a macro instead of a bump.
pub fn check_removal(inst: &str, master: &str, class: &str) -> (r: Result<(), String>)
    ensures
        complaint_of(r) == (if master@.len() == 0 {
            Some(missing("no instance named `"@, inst@))
        } else if !is_bump_class(class@) {
            Some(inst@ + " is a `"@ + class@ + "` cell, not a bump"@)
        } else {
            None
        }),
{
    if master.is_empty() {
        return Err(absent("no instance named `", inst));
    }
    if !is_bump_master(class) {
        let mut e = concat(inst, " is a `");
        e.append(class);
        e.append("` cell, not a bump");
        return Err(e);
    }
    Ok(())
}

/// A pad is placed with the master given, or else with the one it has; where it has one, a different one is
/// refused.
pub proof fn law_master_is_kept(
    inst: Seq<char>,
    given: Option<Seq<char>>,
    existing: bool,
    have: Seq<char>,
)
    ensures
        match master_of(inst, given, existing, have) {
            Ok(m) => {
                &&& given matches Some(g) ==> m == g
                &&& existing && have.len() > 0 ==> m == have
                &&& given is Some || existing
            },
            Err(_) => {
                ||| given is None && !existing
                ||| given is Some && existing && have.len() > 0 && given->0 != have
            },
        },
{
}

/// A pad goes to the site of its row that is nearest to the location asked for.
pub proof fn law_pad_goes_to_the_nearest_site(location: i32, row: RowGeom, edge: Edge, other: int)
    requires
        row.spacing > 0,
        0 <= other <= row.site_count,
    ensures
        ({
            let start = if edge == Edge::North || edge == Edge::South {
                row.origin.0 as int
            } else {
                row.origin.1 as int
            };
            let s = pad_site(location, row, edge);
            let off = |k: int|
                {
                    let d = location - (start + k * row.spacing);
                    if d < 0 {
                        -d
                    } else {
                        d
                    }
                };
            0 <= s <= row.site_count && off(s) <= off(other)
        }),
{
    let start = if edge.across() {
        row.origin.0 as int
    } else {
        row.origin.1 as int
    };
    crate::place::law_snapped_is_nearest(
        location - start,
        row.spacing as int,
        row.site_count as int,
        other,
    );
}

/// What bears on a row: what meets its box, and what does not block by its own; each in its turn.
pub proof fn law_what_bears_on_a_row(
    a: Seq<BlockerView>,
    b: Seq<BlockerView>,
    x: BlockerView,
    row: Rect,
)
    ensures
        bearing(a + b, row) == bearing(a, row) + bearing(b, row),
        ({
            let meets = x.bbox.0 < row.2 && row.0 < x.bbox.2 && x.bbox.1 < row.3 && row.1
                < x.bbox.3;
            &&& meets || !x.by_box ==> bearing(seq![x], row) == seq![x]
            &&& !meets && x.by_box ==> bearing(seq![x], row).len() == 0
        }),
    decreases b.len(),
{
    let one = seq![x];
    assert(one.drop_last() =~= Seq::<BlockerView>::empty());
    assert(bearing(one.drop_last(), row) =~= Seq::<BlockerView>::empty());
    assert(bearing(one, row) =~= if bears_on(x, row) {
        seq![x]
    } else {
        Seq::<BlockerView>::empty()
    });
    if b.len() == 0 {
        assert(a + b =~= a);
        assert(bearing(a, row) + bearing(b, row) =~= bearing(a, row));
    } else {
        law_what_bears_on_a_row(a, b.drop_last(), x, row);
        assert((a + b).drop_last() =~= a + b.drop_last());
        assert(bearing(a + b, row) =~= bearing(a, row) + bearing(b, row));
    }
}

/// A corner cell covers what its row's orientation makes of its master's sides, from the row's origin on.
pub proof fn law_corner_covers(row: RowGeom, size: (i32, i32))
    requires
        size.0 >= 0,
        size.1 >= 0,
    ensures
        ({
            let b = corner_box(row, size);
            let far = row.orient.image((size.0 as int, size.1 as int));
            &&& b.0 == row.origin.0 && b.1 == row.origin.1
            &&& b.2 - b.0 == if far.0 < 0 { -far.0 } else { far.0 }
            &&& b.3 - b.1 == if far.1 < 0 { -far.1 } else { far.1 }
        }),
{
}

/// The instances of a master are those that have it, each in its turn.
pub proof fn law_instances(
    a: Seq<(Seq<char>, Seq<char>)>,
    b: Seq<(Seq<char>, Seq<char>)>,
    x: (Seq<char>, Seq<char>),
    master: Seq<char>,
)
    ensures
        instances(a + b, master) == instances(a, master) + instances(b, master),
        x.1 == master ==> instances(seq![x], master) == seq![x.0],
        x.1 != master ==> instances(seq![x], master).len() == 0,
    decreases b.len(),
{
    let one = seq![x];
    assert(one.drop_last() =~= Seq::<(Seq<char>, Seq<char>)>::empty());
    assert(instances(one.drop_last(), master) =~= Seq::<Seq<char>>::empty());
    assert(instances(one, master) =~= if x.1 == master {
        seq![x.0]
    } else {
        Seq::<Seq<char>>::empty()
    });
    if b.len() == 0 {
        assert(a + b =~= a);
        assert(instances(a, master) + instances(b, master) =~= instances(a, master));
    } else {
        law_instances(a, b.drop_last(), x, master);
        assert((a + b).drop_last() =~= a + b.drop_last());
        assert(instances(a + b, master) =~= instances(a, master) + instances(b, master));
    }
}

/// A pad is turned over exactly where that is asked for, and then keeps the one coordinate or the other.
pub proof fn law_mirrored_on_request(mirror: bool, edge: Edge, site: (i32, i32), p: (int, int))
    ensures
        ({
            let q = base_of(mirror, edge, site).image(p);
            &&& !mirror ==> q == p
            &&& mirror ==> (q == (p.0, -p.1) || q == (-p.0, p.1))
            &&& mirror && (edge == Edge::North || edge == Edge::South) ==> q == (-p.0, p.1)
            &&& mirror && (edge == Edge::East || edge == Edge::West) && site.1 < site.0 ==> q == (
                p.0,
                -p.1,
            )
        }),
{
}

} // verus!
