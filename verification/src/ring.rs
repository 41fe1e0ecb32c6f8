//! The pad ring: four corners and four edges of IO sites around the die.
//!
//! Everything else places into these rows.

use crate::geom::{fits_i32, max, min};
use crate::orient::Orient;
use crate::text::{decimal, push_int};
use vstd::prelude::*;
use vstd::string::*;

verus! {

/// A site: the unit an IO row is tiled with.
///
/// A pad site is not square and not upright: it is long in the direction the row runs and thin
/// across it. The row's pitch is therefore the site's smaller dimension and its thickness the
/// larger.
#[derive(Debug, Clone, PartialEq, Eq)]
pub struct Site {
    pub name: String,
    pub width: i32,
    pub height: i32,
}

impl Site {
    pub open spec fn short(self) -> int {
        min(self.width as int, self.height as int)
    }

    pub open spec fn long(self) -> int {
        max(self.width as int, self.height as int)
    }

    /// The short side: the pitch a row of these advances by.
    pub fn pitch(&self) -> (p: i32)
        ensures
            p == self.short(),
    {
        if self.width < self.height {
            self.width
        } else {
            self.height
        }
    }

    /// The long side: how far the row reaches in from the die edge.
    pub fn depth(&self) -> (d: i32)
        ensures
            d == self.long(),
    {
        if self.width > self.height {
            self.width
        } else {
            self.height
        }
    }
}

/// How far each edge of the ring is inset from the die.
///
/// Four independent values, not one margin: a design can give one edge more room than another.
#[derive(Debug, Clone, Copy, PartialEq, Eq)]
pub struct Offsets {
    pub west: i32,
    pub north: i32,
    pub east: i32,
    pub south: i32,
}

impl Default for Offsets {
    fn default() -> (o: Offsets)
        ensures
            o.west == 0 && o.north == 0 && o.east == 0 && o.south == 0,
    {
        Offsets { west: 0, north: 0, east: 0, south: 0 }
    }
}

/// Which way a row's sites are laid out.
#[derive(Debug, Clone, Copy, PartialEq, Eq, Structural)]
pub enum RowDir {
    Horizontal,
    Vertical,
}

/// One row of the ring.
#[derive(Debug, Clone, PartialEq, Eq)]
pub struct Row {
    pub name: String,
    pub site: String,
    pub x: i32,
    pub y: i32,
    pub orient: Orient,
    pub dir: RowDir,
    /// How many sites the row holds.
    pub sites: i32,
    /// The distance between them.
    pub pitch: i32,
}

/// What a row is.
pub struct RowView {
    pub name: Seq<char>,
    pub site: Seq<char>,
    pub x: int,
    pub y: int,
    pub orient: Orient,
    pub dir: RowDir,
    pub sites: int,
    pub pitch: int,
}

impl View for Row {
    type V = RowView;

    open spec fn view(&self) -> RowView {
        RowView {
            name: self.name@,
            site: self.site@,
            x: self.x as int,
            y: self.y as int,
            orient: self.orient,
            dir: self.dir,
            sites: self.sites as int,
            pitch: self.pitch as int,
        }
    }
}

/// The user's rotations, applied on top of each row's own orientation.
#[derive(Debug, Clone, Copy, PartialEq, Eq)]
pub struct Rotations {
    pub horizontal: Orient,
    pub vertical: Orient,
    pub corner: Orient,
}

impl Default for Rotations {
    fn default() -> (r: Rotations)
        ensures
            r.horizontal == Orient::R0,
            r.vertical == Orient::R0,
            r.corner == Orient::R0,
    {
        Rotations { horizontal: Orient::R0, vertical: Orient::R0, corner: Orient::R0 }
    }
}

/// A row's name: the ring index is appended only when there is one.
pub open spec fn indexed_name(base: Seq<char>, ring_index: int) -> Seq<char> {
    if ring_index < 0 {
        base
    } else {
        base + "_"@ + decimal(ring_index)
    }
}

/// A row's name, with the ring index appended only when there is one.
///
/// A negative index means the only ring, and then the name is bare. Appending `_-1` would be a
/// different row as far as every later command is concerned.
pub fn row_name(base: &str, ring_index: i32) -> (name: String)
    ensures
        name@ == indexed_name(base@, ring_index as int),
{
    let mut name = base.to_owned();
    if ring_index >= 0 {
        name.append("_");
        push_int(&mut name, ring_index as i64);
    }
    name
}

/// The ring's measures: its bounds, its corners' size, and how many sites its sides and corners
/// hold.
pub struct Frame {
    pub x0: int,
    pub y0: int,
    pub x1: int,
    pub y1: int,
    pub corner_width: int,
    pub corner_height: int,
    pub x_sites: int,
    pub y_sites: int,
    pub corner_sites: int,
}

/// The die inset by the four offsets and truncated to whole sites. The corner is as wide as the
/// horizontal row is deep where that is more than its own width.
pub open spec fn frame(
    die: (i32, i32, i32, i32),
    horizontal: Site,
    vertical: Site,
    corner: Site,
    offsets: Offsets,
) -> Frame {
    let (x0, y0) = (die.0 + offsets.west, die.1 + offsets.south);
    let corner_height = corner.height as int;
    let corner_width = max(horizontal.long(), corner.width as int);
    let x_sites = (die.2 - offsets.east - x0 - 2 * corner_width) / max(vertical.short(), 1);
    let y_sites = (die.3 - offsets.north - y0 - 2 * corner_height) / max(horizontal.short(), 1);
    Frame {
        x0,
        y0,
        x1: x0 + 2 * corner_width + x_sites * vertical.short(),
        y1: y0 + 2 * corner_height + y_sites * horizontal.short(),
        corner_width,
        corner_height,
        x_sites,
        y_sites,
        corner_sites: corner_width / max(corner.width as int, 1),
    }
}

/// A corner of the ring: the user's rotation is applied first, then the corner's own orientation.
pub open spec fn corner_row(
    base: Seq<char>,
    ring_index: int,
    corner: Site,
    sites: int,
    x: int,
    y: int,
    rotation: Orient,
    own: Orient,
) -> RowView {
    RowView {
        name: indexed_name(base, ring_index),
        site: corner.name@,
        x,
        y,
        orient: rotation.composed(own),
        dir: RowDir::Horizontal,
        sites,
        pitch: corner.width as int,
    }
}

/// An edge of the ring.
pub open spec fn edge_row(
    base: Seq<char>,
    ring_index: int,
    site: Site,
    sites: int,
    x: int,
    y: int,
    rotations: Rotations,
    own: Orient,
    dir: RowDir,
) -> RowView {
    let rotation = match dir {
        RowDir::Horizontal => rotations.vertical,
        RowDir::Vertical => rotations.horizontal,
    };
    RowView {
        name: indexed_name(base, ring_index),
        site: site.name@,
        x,
        y,
        orient: rotation.composed(own),
        dir,
        sites,
        pitch: site.short(),
    }
}

/// The whole ring: the four corners, then the four edges. Each edge starts where its corner ends;
/// the north and east edges hang inwards from the ring's bounds. The west edge lies on its side
/// where both directions are given the same site, and the east edge is its mirror image.
pub open spec fn ring(
    die: (i32, i32, i32, i32),
    horizontal: Site,
    vertical: Site,
    corner: Site,
    offsets: Offsets,
    rotations: Rotations,
    ring_index: int,
    same_site: bool,
) -> Seq<RowView> {
    let f = frame(die, horizontal, vertical, corner, offsets);
    let (cx, cy) = (f.x1 - f.corner_width, f.y1 - f.corner_height);
    let n = f.corner_sites;
    let span = n * corner.width;
    let own = rotations.corner;
    let west = if same_site {
        Orient::MXR90
    } else {
        Orient::R0
    };
    let east = west.composed(Orient::MY);
    let north = Orient::R0.composed(Orient::MX);
    let (across, down) = (RowDir::Horizontal, RowDir::Vertical);
    let i = ring_index;
    seq![
        corner_row("IO_CORNER_NORTH_WEST"@, i, corner, n, f.x0, cy, own, Orient::MX),
        corner_row("IO_CORNER_NORTH_EAST"@, i, corner, n, cx, cy, own, Orient::R180),
        corner_row("IO_CORNER_SOUTH_EAST"@, i, corner, n, cx, f.y0, own, Orient::MY),
        corner_row("IO_CORNER_SOUTH_WEST"@, i, corner, n, f.x0, f.y0, own, Orient::R0),
        edge_row(
            "IO_NORTH"@,
            i,
            vertical,
            f.x_sites,
            f.x0 + span,
            f.y1 - vertical.long(),
            rotations,
            north,
            across,
        ),
        edge_row(
            "IO_EAST"@,
            i,
            horizontal,
            f.y_sites,
            f.x1 - horizontal.long(),
            f.y0 + f.corner_height,
            rotations,
            east,
            down,
        ),
        edge_row(
            "IO_SOUTH"@,
            i,
            vertical,
            f.x_sites,
            f.x0 + span,
            f.y0,
            rotations,
            Orient::R0,
            across,
        ),
        edge_row(
            "IO_WEST"@,
            i,
            horizontal,
            f.y_sites,
            f.x0,
            f.y0 + f.corner_height,
            rotations,
            west,
            down,
        ),
    ]
}

pub open spec fn rows_fit(rows: Seq<RowView>) -> bool {
    forall|i: int|
        0 <= i < rows.len() ==> fits_i32((#[trigger] rows[i]).x) && fits_i32(rows[i].y) && fits_i32(
            rows[i].sites,
        )
}

pub open spec fn row_views(rows: Seq<Row>) -> Seq<RowView> {
    Seq::new(rows.len(), |i: int| rows[i]@)
}

/// `a / b`, rounded down.
fn floor_div(a: i64, b: i64) -> (q: i64)
    requires
        b > 0,
        -0x1000_0000_0000 <= a <= 0x1000_0000_0000,
    ensures
        q == a as int / b as int,
        -0x1000_0000_0000 <= q <= 0x1000_0000_0000,
{
    if a >= 0 {
        proof {
            vstd::arithmetic::div_mod::lemma_div_is_ordered_by_denominator(a as int, 1, b as int);
            vstd::arithmetic::div_mod::lemma_div_pos_is_pos(a as int, b as int);
        }
        a / b
    } else {
        let m: i64 = -a - 1;
        let q: i64 = -1 - m / b;
        proof {
            let r = m as int % b as int;
            vstd::arithmetic::div_mod::lemma_fundamental_div_mod(m as int, b as int);
            vstd::arithmetic::div_mod::lemma_mod_bound(m as int, b as int);
            vstd::arithmetic::div_mod::lemma_div_is_ordered_by_denominator(m as int, 1, b as int);
            vstd::arithmetic::div_mod::lemma_div_pos_is_pos(m as int, b as int);
            assert(a == q * b + (b - 1 - r)) by (nonlinear_arith)
                requires
                    m == b * (m as int / b as int) + r,
                    q == -1 - m as int / b as int,
                    m == -a - 1,
            ;
            vstd::arithmetic::div_mod::lemma_fundamental_div_mod_converse(
                a as int,
                b as int,
                q as int,
                b - 1 - r,
            );
        }
        q
    }
}

/// The ring's measures, to build it from.
struct Bounds {
    x0: i128,
    y0: i128,
    x1: i128,
    y1: i128,
    corner_width: i128,
    corner_height: i128,
    x_sites: i128,
    y_sites: i128,
    corner_sites: i128,
    span: i128,
}

impl Bounds {
    spec fn is(self, f: Frame, corner: Site) -> bool {
        &&& self.x0 == f.x0 && self.y0 == f.y0 && self.x1 == f.x1 && self.y1 == f.y1
        &&& self.corner_width == f.corner_width && self.corner_height == f.corner_height
        &&& self.x_sites == f.x_sites && self.y_sites == f.y_sites
        &&& self.corner_sites == f.corner_sites && self.span == f.corner_sites * corner.width
    }

    /// Small enough that sums of a few of them fit.
    spec fn small(self) -> bool {
        let w: int = 0x1_0000_0000_0000_0000_0000;
        &&& -w <= self.x0 <= w && -w <= self.y0 <= w && -w <= self.x1 <= w && -w <= self.y1 <= w
        &&& -w <= self.corner_width <= w && -w <= self.corner_height <= w && -w <= self.span <= w
    }
}

/// `q` sites of pitch `p` come to no more than they were cut from.
proof fn lemma_sites(a: int, p: int, q: int)
    requires
        -0x10_0000_0000 <= a <= 0x10_0000_0000,
        -0x8000_0000 <= p <= 0x8000_0000,
        q == a / max(p, 1),
    ensures
        -0x100_0000_0000_0000_0000 <= q * p <= 0x100_0000_0000_0000_0000,
        p >= 1 ==> a - p < q * p <= a,
{
    let d = max(p, 1);
    vstd::arithmetic::div_mod::lemma_fundamental_div_mod(a, d);
    vstd::arithmetic::div_mod::lemma_mod_bound(a, d);
    assert(d * q == q * d) by (nonlinear_arith);
    if p < 1 {
        assert(q == a) by (nonlinear_arith)
            requires
                q == a / d,
                d == 1,
        ;
        assert(-0x100_0000_0000_0000_0000 <= q * p <= 0x100_0000_0000_0000_0000) by (nonlinear_arith)
            requires
                -0x10_0000_0000 <= q <= 0x10_0000_0000,
                -0x8000_0000 <= p <= 0,
        ;
    }
}

fn measure(
    die: (i32, i32, i32, i32),
    horizontal: &Site,
    vertical: &Site,
    corner: &Site,
    offsets: Offsets,
) -> (b: Bounds)
    ensures
        b.is(frame(die, *horizontal, *vertical, *corner, offsets), *corner),
        b.small(),
{
    let x0: i64 = die.0 as i64 + offsets.west as i64;
    let y0: i64 = die.1 as i64 + offsets.south as i64;
    let corner_height: i64 = corner.height as i64;
    let deep: i64 = horizontal.depth() as i64;
    let corner_width: i64 = if deep > corner.width as i64 { deep } else { corner.width as i64 };
    let px: i64 = vertical.pitch() as i64;
    let py: i64 = horizontal.pitch() as i64;
    let room_x: i64 = die.2 as i64 - offsets.east as i64 - x0 - 2 * corner_width;
    let room_y: i64 = die.3 as i64 - offsets.north as i64 - y0 - 2 * corner_height;
    let x_sites: i64 = floor_div(room_x, if px > 1 { px } else { 1 });
    let y_sites: i64 = floor_div(room_y, if py > 1 { py } else { 1 });
    let corner_sites: i64 = floor_div(
        corner_width,
        if corner.width > 1 { corner.width as i64 } else { 1 },
    );
    proof {
        lemma_sites(room_x as int, px as int, x_sites as int);
        lemma_sites(room_y as int, py as int, y_sites as int);
        lemma_sites(corner_width as int, corner.width as int, corner_sites as int);
    }
    let (wide_x, wide_y): (i128, i128) = (x_sites as i128 * px as i128, y_sites as i128 * py as i128);
    Bounds {
        x0: x0 as i128,
        y0: y0 as i128,
        x1: (x0 + 2 * corner_width) as i128 + wide_x,
        y1: (y0 + 2 * corner_height) as i128 + wide_y,
        corner_width: corner_width as i128,
        corner_height: corner_height as i128,
        x_sites: x_sites as i128,
        y_sites: y_sites as i128,
        corner_sites: corner_sites as i128,
        span: corner_sites as i128 * corner.width as i128,
    }
}

fn make_corner(
    base: &str,
    ring_index: i32,
    corner: &Site,
    sites: i128,
    x: i128,
    y: i128,
    rotation: Orient,
    own: Orient,
) -> (r: Row)
    requires
        fits_i32(sites as int),
        fits_i32(x as int),
        fits_i32(y as int),
    ensures
        r@ == corner_row(
            base@,
            ring_index as int,
            *corner,
            sites as int,
            x as int,
            y as int,
            rotation,
            own,
        ),
{
    Row {
        name: row_name(base, ring_index),
        site: corner.name.clone(),
        x: x as i32,
        y: y as i32,
        orient: rotation.concat(own),
        dir: RowDir::Horizontal,
        sites: sites as i32,
        pitch: corner.width,
    }
}

fn make_edge(
    base: &str,
    ring_index: i32,
    site: &Site,
    sites: i128,
    x: i128,
    y: i128,
    rotations: Rotations,
    own: Orient,
    dir: RowDir,
) -> (r: Row)
    requires
        fits_i32(sites as int),
        fits_i32(x as int),
        fits_i32(y as int),
    ensures
        r@ == edge_row(
            base@,
            ring_index as int,
            *site,
            sites as int,
            x as int,
            y as int,
            rotations,
            own,
            dir,
        ),
{
    let rotation = match dir {
        RowDir::Horizontal => rotations.vertical,
        RowDir::Vertical => rotations.horizontal,
    };
    Row {
        name: row_name(base, ring_index),
        site: site.name.clone(),
        x: x as i32,
        y: y as i32,
        orient: rotation.concat(own),
        dir,
        sites: sites as i32,
        pitch: site.pitch(),
    }
}

/// Whether every row of the ring lies within machine coordinates.
pub fn ring_fits(
    die: (i32, i32, i32, i32),
    horizontal: &Site,
    vertical: &Site,
    corner: &Site,
    offsets: Offsets,
    rotations: Rotations,
    ring_index: i32,
    same_site: bool,
) -> (yes: bool)
    ensures
        yes == rows_fit(
            ring(
                die,
                *horizontal,
                *vertical,
                *corner,
                offsets,
                rotations,
                ring_index as int,
                same_site,
            ),
        ),
{
    let ghost all = ring(
        die,
        *horizontal,
        *vertical,
        *corner,
        offsets,
        rotations,
        ring_index as int,
        same_site,
    );
    let b = measure(die, horizontal, vertical, corner, offsets);
    let yes = in_i32(b.x0) && in_i32(b.y0) && in_i32(b.x1 - b.corner_width) && in_i32(
        b.y1 - b.corner_height,
    ) && in_i32(b.corner_sites) && in_i32(b.x0 + b.span) && in_i32(b.y1 - vertical.depth() as i128)
        && in_i32(b.x1 - horizontal.depth() as i128) && in_i32(b.y0 + b.corner_height) && in_i32(
        b.x_sites,
    ) && in_i32(b.y_sites);
    assert(yes == rows_fit(all)) by {
        if rows_fit(all) {
            assert(fits_i32(all[0].x) && fits_i32(all[1].x) && fits_i32(all[2].x) && fits_i32(
                all[3].x,
            ) && fits_i32(all[4].x) && fits_i32(all[5].x) && fits_i32(all[6].x) && fits_i32(
                all[7].x,
            ));
        }
    }
    yes
}

fn in_i32(v: i128) -> (yes: bool)
    ensures
        yes == fits_i32(v as int),
{
    i32::MIN as i128 <= v && v <= i32::MAX as i128
}

/// The whole ring.
///
/// `die` is `(x0, y0, x1, y1)`. `same_site` says whether the caller passed the same site object for
/// the horizontal and vertical directions; it is deliberately not inferred from the site's name or
/// size.
pub fn make_rows(
    die: (i32, i32, i32, i32),
    horizontal: &Site,
    vertical: &Site,
    corner: &Site,
    offsets: Offsets,
    rotations: Rotations,
    ring_index: i32,
    same_site: bool,
) -> (rows: Vec<Row>)
    requires
        rows_fit(
            ring(
                die,
                *horizontal,
                *vertical,
                *corner,
                offsets,
                rotations,
                ring_index as int,
                same_site,
            ),
        ),
    ensures
        row_views(rows@) == ring(
            die,
            *horizontal,
            *vertical,
            *corner,
            offsets,
            rotations,
            ring_index as int,
            same_site,
        ),
{
    let ghost all = ring(
        die,
        *horizontal,
        *vertical,
        *corner,
        offsets,
        rotations,
        ring_index as int,
        same_site,
    );
    let b = measure(die, horizontal, vertical, corner, offsets);
    let (cx, cy): (i128, i128) = (b.x1 - b.corner_width, b.y1 - b.corner_height);
    let west = if same_site { Orient::MXR90 } else { Orient::R0 };
    let east = west.flip_y();
    let north = Orient::R0.flip_x();
    let (n, own, i) = (b.corner_sites, rotations.corner, ring_index);
    let (across, down) = (RowDir::Horizontal, RowDir::Vertical);
    assert(fits_i32(all[0].x) && fits_i32(all[1].x) && fits_i32(all[2].x) && fits_i32(all[3].x) && fits_i32(all[4].x)
        && fits_i32(all[5].x) && fits_i32(all[6].x) && fits_i32(all[7].x));
    let mut rows: Vec<Row> = Vec::new();
    rows.push(make_corner("IO_CORNER_NORTH_WEST", i, corner, n, b.x0, cy, own, Orient::MX));
    rows.push(make_corner("IO_CORNER_NORTH_EAST", i, corner, n, cx, cy, own, Orient::R180));
    rows.push(make_corner("IO_CORNER_SOUTH_EAST", i, corner, n, cx, b.y0, own, Orient::MY));
    rows.push(make_corner("IO_CORNER_SOUTH_WEST", i, corner, n, b.x0, b.y0, own, Orient::R0));
    rows.push(
        make_edge(
            "IO_NORTH",
            i,
            vertical,
            b.x_sites,
            b.x0 + b.span,
            b.y1 - vertical.depth() as i128,
            rotations,
            north,
            across,
        ),
    );
    rows.push(
        make_edge(
            "IO_EAST",
            i,
            horizontal,
            b.y_sites,
            b.x1 - horizontal.depth() as i128,
            b.y0 + b.corner_height,
            rotations,
            east,
            down,
        ),
    );
    rows.push(
        make_edge(
            "IO_SOUTH",
            i,
            vertical,
            b.x_sites,
            b.x0 + b.span,
            b.y0,
            rotations,
            Orient::R0,
            across,
        ),
    );
    rows.push(
        make_edge(
            "IO_WEST",
            i,
            horizontal,
            b.y_sites,
            b.x0,
            b.y0 + b.corner_height,
            rotations,
            west,
            down,
        ),
    );
    assert(row_views(rows@) =~= all);
    rows
}

/// The ring holds whole sites and stays within the die inset by its offsets: what does not divide
/// evenly is given up, less than a site on each side.
pub proof fn law_whole_sites(
    die: (i32, i32, i32, i32),
    horizontal: Site,
    vertical: Site,
    corner: Site,
    offsets: Offsets,
)
    requires
        horizontal.short() >= 1,
        vertical.short() >= 1,
    ensures
        ({
            let f = frame(die, horizontal, vertical, corner, offsets);
            &&& f.x1 - f.x0 == 2 * f.corner_width + f.x_sites * vertical.short()
            &&& f.y1 - f.y0 == 2 * f.corner_height + f.y_sites * horizontal.short()
            &&& die.2 - offsets.east - vertical.short() < f.x1 <= die.2 - offsets.east
            &&& die.3 - offsets.north - horizontal.short() < f.y1 <= die.3 - offsets.north
        }),
{
    let f = frame(die, horizontal, vertical, corner, offsets);
    lemma_sites(
        die.2 - offsets.east - f.x0 - 2 * f.corner_width,
        vertical.short(),
        f.x_sites,
    );
    lemma_sites(
        die.3 - offsets.north - f.y0 - 2 * f.corner_height,
        horizontal.short(),
        f.y_sites,
    );
}

/// The ring closes. Each edge starts where a corner ends; where the corner cell fills its corner
/// exactly, the north and south edges also end where the next corner begins, and so do the east and
/// west edges always.
pub proof fn law_ring_closes(
    die: (i32, i32, i32, i32),
    horizontal: Site,
    vertical: Site,
    corner: Site,
    offsets: Offsets,
    rotations: Rotations,
    ring_index: int,
    same_site: bool,
)
    ensures
        ({
            let rows = ring(
                die,
                horizontal,
                vertical,
                corner,
                offsets,
                rotations,
                ring_index,
                same_site,
            );
            let f = frame(die, horizontal, vertical, corner, offsets);
            let (nw, ne, se, sw) = (rows[0], rows[1], rows[2], rows[3]);
            let (north, east, south, west) = (rows[4], rows[5], rows[6], rows[7]);
            &&& rows.len() == 8
            &&& north.x == nw.x + nw.sites * nw.pitch
            &&& south.x == sw.x + sw.sites * sw.pitch
            &&& east.y == se.y + corner.height
            &&& west.y == sw.y + corner.height
            &&& east.y + east.sites * east.pitch == ne.y
            &&& west.y + west.sites * west.pitch == nw.y
            &&& nw.sites * nw.pitch == f.corner_width ==> {
                &&& north.x + north.sites * north.pitch == ne.x
                &&& south.x + south.sites * south.pitch == se.x
            }
        }),
{
}

/// The rows of a ring have names of their own.
pub proof fn law_names_distinct(
    die: (i32, i32, i32, i32),
    horizontal: Site,
    vertical: Site,
    corner: Site,
    offsets: Offsets,
    rotations: Rotations,
    ring_index: int,
    same_site: bool,
    k: int,
    m: int,
)
    requires
        0 <= k < m < 8,
    ensures
        ({
            let rows = ring(
                die,
                horizontal,
                vertical,
                corner,
                offsets,
                rotations,
                ring_index,
                same_site,
            );
            rows[k].name != rows[m].name
        }),
{
    let rows = ring(
        die,
        horizontal,
        vertical,
        corner,
        offsets,
        rotations,
        ring_index,
        same_site,
    );
    let bases = seq![
        "IO_CORNER_NORTH_WEST"@,
        "IO_CORNER_NORTH_EAST"@,
        "IO_CORNER_SOUTH_EAST"@,
        "IO_CORNER_SOUTH_WEST"@,
        "IO_NORTH"@,
        "IO_EAST"@,
        "IO_SOUTH"@,
        "IO_WEST"@,
    ];
    reveal_strlit("IO_NORTH");
    reveal_strlit("IO_SOUTH");
    reveal_strlit("IO_EAST");
    reveal_strlit("IO_WEST");
    reveal_strlit("IO_CORNER_NORTH_WEST");
    reveal_strlit("IO_CORNER_NORTH_EAST");
    reveal_strlit("IO_CORNER_SOUTH_WEST");
    reveal_strlit("IO_CORNER_SOUTH_EAST");
    assert(rows[k].name == indexed_name(bases[k], ring_index));
    assert(rows[m].name == indexed_name(bases[m], ring_index));
    // What tells the corners apart is a letter of each part of their names.
    assert(bases[k][3] != bases[m][3] || bases[k][10] != bases[m][10] || bases[k][16]
        != bases[m][16]);
    if rows[k].name == rows[m].name {
        if ring_index >= 0 {
            crate::text::lemma_numbered(
                bases[k],
                ring_index as nat,
                bases[m],
                ring_index as nat,
            );
        }
        assert(bases[k] == bases[m]);
    }
}

/// A row's name tells which ring it belongs to.
pub proof fn law_names_tell_rings(a: Seq<char>, i: int, b: Seq<char>, j: int)
    requires
        i >= 0,
        j >= 0,
        indexed_name(a, i) == indexed_name(b, j),
    ensures
        a == b,
        i == j,
{
    crate::text::lemma_numbered(a, i as nat, b, j as nat);
}

/// The ring lies on its bounds. Its lower left is the die's, inset by the west and south offsets; its
/// size is two corners and whole sites each way, as many as the inset die has room for. The four corners
/// stand in its corners, and every edge has its outer side on the ring's own, however large a corner is.
pub proof fn law_ring_lies_on_its_bounds(
    die: (i32, i32, i32, i32),
    horizontal: Site,
    vertical: Site,
    corner: Site,
    offsets: Offsets,
    rotations: Rotations,
    ring_index: int,
    same_site: bool,
)
    ensures
        ({
            let rows = ring(
                die,
                horizontal,
                vertical,
                corner,
                offsets,
                rotations,
                ring_index,
                same_site,
            );
            let (nw, ne, se, sw) = (rows[0], rows[1], rows[2], rows[3]);
            let (north, east, south, west) = (rows[4], rows[5], rows[6], rows[7]);
            let (h, v) = (
                if horizontal.width < horizontal.height {
                    (horizontal.width as int, horizontal.height as int)
                } else {
                    (horizontal.height as int, horizontal.width as int)
                },
                if vertical.width < vertical.height {
                    (vertical.width as int, vertical.height as int)
                } else {
                    (vertical.height as int, vertical.width as int)
                },
            );
            let across = if h.1 < corner.width {
                corner.width as int
            } else {
                h.1
            };
            let (left, low) = (die.0 + offsets.west, die.1 + offsets.south);
            let right = left + 2 * across + north.sites * v.0;
            let high = low + 2 * corner.height + west.sites * h.0;
            &&& sw.x == left && nw.x == left && west.x == left
            &&& sw.y == low && se.y == low && south.y == low
            &&& se.x + across == right && ne.x + across == right && east.x + h.1 == right
            &&& nw.y + corner.height == high && ne.y + corner.height == high
            &&& north.y + v.1 == high
            &&& west.y == low + corner.height && east.y == low + corner.height
            &&& east.sites == west.sites && south.sites == north.sites && south.x == north.x
            &&& v.0 >= 1 ==> right <= die.2 - offsets.east < right + v.0
            &&& h.0 >= 1 ==> high <= die.3 - offsets.north < high + h.0
            &&& north.pitch == v.0 && south.pitch == v.0 && east.pitch == h.0 && west.pitch == h.0
            &&& forall|k: int| 0 <= k < 4 ==> (#[trigger] rows[k]).pitch == corner.width
                && rows[k].sites == sw.sites && rows[k].site == corner.name@
            &&& corner.width >= 1 ==> sw.sites * corner.width <= across < (sw.sites + 1)
                * corner.width
            &&& corner.width >= 1 ==> north.x == left + sw.sites * corner.width
            &&& north.site == vertical.name@ && south.site == vertical.name@
            &&& east.site == horizontal.name@ && west.site == horizontal.name@
            &&& forall|k: int|
                0 <= k < 8 ==> ((#[trigger] rows[k]).dir == RowDir::Vertical <==> k == 5 || k == 7)
        }),
{
    let f = frame(die, horizontal, vertical, corner, offsets);
    lemma_sites(
        die.2 - offsets.east - f.x0 - 2 * f.corner_width,
        vertical.short(),
        f.x_sites,
    );
    lemma_sites(
        die.3 - offsets.north - f.y0 - 2 * f.corner_height,
        horizontal.short(),
        f.y_sites,
    );
    lemma_sites(f.corner_width, corner.width as int, f.corner_sites);
    assert((f.corner_sites + 1) * corner.width == f.corner_sites * corner.width + corner.width)
        by (nonlinear_arith);
}

/// How the rows lie. Without a rotation asked for, the south row and the lower left corner lie upright;
/// the north row is the south row mirrored top to bottom, the east row is the west row mirrored left to
/// right, and the other corners are the lower left one mirrored into theirs. A rotation asked for is
/// applied before each of these.
pub proof fn law_ring_is_mirrored(
    die: (i32, i32, i32, i32),
    horizontal: Site,
    vertical: Site,
    corner: Site,
    offsets: Offsets,
    rotations: Rotations,
    ring_index: int,
    same_site: bool,
    p: (int, int),
)
    ensures
        ({
            let rows = ring(
                die,
                horizontal,
                vertical,
                corner,
                offsets,
                rotations,
                ring_index,
                same_site,
            );
            let c = rotations.corner.image(p);
            let v = rotations.vertical.image(p);
            let h = rotations.horizontal.image(p);
            let w = rows[7].orient.image(p);
            &&& rows[3].orient.image(p) == c
            &&& rows[0].orient.image(p) == (c.0, -c.1)
            &&& rows[2].orient.image(p) == (-c.0, c.1)
            &&& rows[1].orient.image(p) == (-c.0, -c.1)
            &&& rows[6].orient.image(p) == v
            &&& rows[4].orient.image(p) == (v.0, -v.1)
            &&& w == if same_site {
                (h.1, h.0)
            } else {
                h
            }
            &&& rows[5].orient.image(p) == (-w.0, w.1)
        }),
{
}

/// Each row is named for where it stands, and where there are several rings, for the ring.
pub proof fn law_rows_are_named_for_their_place(
    die: (i32, i32, i32, i32),
    horizontal: Site,
    vertical: Site,
    corner: Site,
    offsets: Offsets,
    rotations: Rotations,
    ring_index: int,
    same_site: bool,
    k: int,
)
    requires
        0 <= k < 8,
    ensures
        ({
            let rows = ring(
                die,
                horizontal,
                vertical,
                corner,
                offsets,
                rotations,
                ring_index,
                same_site,
            );
            let places = seq![
                "IO_CORNER_NORTH_WEST"@,
                "IO_CORNER_NORTH_EAST"@,
                "IO_CORNER_SOUTH_EAST"@,
                "IO_CORNER_SOUTH_WEST"@,
                "IO_NORTH"@,
                "IO_EAST"@,
                "IO_SOUTH"@,
                "IO_WEST"@,
            ];
            &&& ring_index < 0 ==> rows[k].name == places[k]
            &&& ring_index >= 0 ==> rows[k].name == places[k] + "_"@ + decimal(ring_index)
        }),
{
}

} // verus!
