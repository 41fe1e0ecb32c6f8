//! Placing cells into the ring: corners, and pads at a given location.
//!
//! The ring says where cells may go; this says where they do. A corner is a cell dropped at a row's
//! own origin, and a pad is a cell dropped at a site index along one.

use crate::geom::{fits_i32, Rect};
use crate::orient::Orient;
use crate::ring::{indexed_name, row_name};
use crate::single::clip;
use crate::text::{concat, starts_with};
use vstd::prelude::*;

verus! {

/// Which side of the die a row runs along.
///
/// Not stored on the row: it is derived from its name. A row named `IO_NORTH_2` is a north row; the
/// ring suffix is part of the name and not part of the question.
#[derive(Debug, Clone, Copy, PartialEq, Eq, Structural)]
pub enum Edge {
    North,
    South,
    East,
    West,
}

/// The edge a row name denotes: the one whose name it starts with.
pub open spec fn edge_of(name: Seq<char>) -> Option<Edge> {
    if "IO_NORTH"@.is_prefix_of(name) {
        Some(Edge::North)
    } else if "IO_SOUTH"@.is_prefix_of(name) {
        Some(Edge::South)
    } else if "IO_EAST"@.is_prefix_of(name) {
        Some(Edge::East)
    } else if "IO_WEST"@.is_prefix_of(name) {
        Some(Edge::West)
    } else {
        None
    }
}

impl Edge {
    pub open spec fn across(self) -> bool {
        self == Edge::North || self == Edge::South
    }

    /// The edge a row name denotes, or `None` if it is not an IO row.
    ///
    /// Matched as a prefix, so `IO_NORTH_0` resolves. And `IO_CORNER_NORTH_WEST` is deliberately
    /// not a north row: it does not start with `IO_NORTH`.
    pub fn of_row(name: &str) -> (e: Option<Edge>)
        ensures
            e == edge_of(name@),
    {
        if starts_with(name, "IO_NORTH") {
            Some(Edge::North)
        } else if starts_with(name, "IO_SOUTH") {
            Some(Edge::South)
        } else if starts_with(name, "IO_EAST") {
            Some(Edge::East)
        } else if starts_with(name, "IO_WEST") {
            Some(Edge::West)
        } else {
            None
        }
    }

    /// Does this edge's row run left-to-right?
    pub fn is_horizontal(self) -> (b: bool)
        ensures
            b == self.across(),
    {
        match self {
            Edge::North | Edge::South => true,
            _ => false,
        }
    }
}

/// A row of the ring is found on its own edge whatever its ring index, and no corner row is on one.
pub proof fn law_ring_names(ring_index: int)
    ensures
        edge_of(indexed_name("IO_NORTH"@, ring_index)) == Some(Edge::North),
        edge_of(indexed_name("IO_SOUTH"@, ring_index)) == Some(Edge::South),
        edge_of(indexed_name("IO_EAST"@, ring_index)) == Some(Edge::East),
        edge_of(indexed_name("IO_WEST"@, ring_index)) == Some(Edge::West),
        edge_of(indexed_name("IO_CORNER_NORTH_WEST"@, ring_index)) is None,
        edge_of(indexed_name("IO_CORNER_NORTH_EAST"@, ring_index)) is None,
        edge_of(indexed_name("IO_CORNER_SOUTH_WEST"@, ring_index)) is None,
        edge_of(indexed_name("IO_CORNER_SOUTH_EAST"@, ring_index)) is None,
{
    reveal_strlit("IO_NORTH");
    reveal_strlit("IO_SOUTH");
    reveal_strlit("IO_EAST");
    reveal_strlit("IO_WEST");
    reveal_strlit("IO_CORNER_NORTH_WEST");
    reveal_strlit("IO_CORNER_NORTH_EAST");
    reveal_strlit("IO_CORNER_SOUTH_WEST");
    reveal_strlit("IO_CORNER_SOUTH_EAST");
    lemma_edge(indexed_name("IO_NORTH"@, ring_index), "IO_NORTH"@);
    lemma_edge(indexed_name("IO_SOUTH"@, ring_index), "IO_SOUTH"@);
    lemma_edge(indexed_name("IO_EAST"@, ring_index), "IO_EAST"@);
    lemma_edge(indexed_name("IO_WEST"@, ring_index), "IO_WEST"@);
    lemma_edge(indexed_name("IO_CORNER_NORTH_WEST"@, ring_index), "IO_CORNER_NORTH_WEST"@);
    lemma_edge(indexed_name("IO_CORNER_NORTH_EAST"@, ring_index), "IO_CORNER_NORTH_EAST"@);
    lemma_edge(indexed_name("IO_CORNER_SOUTH_WEST"@, ring_index), "IO_CORNER_SOUTH_WEST"@);
    lemma_edge(indexed_name("IO_CORNER_SOUTH_EAST"@, ring_index), "IO_CORNER_SOUTH_EAST"@);
}

/// The fourth character tells the edges apart.
proof fn lemma_edge(name: Seq<char>, base: Seq<char>)
    requires
        base.is_prefix_of(name) || name == base,
        base.len() >= 7,
    ensures
        edge_of(name) matches Some(e) ==> base[3] == (match e {
            Edge::North => 'N',
            Edge::South => 'S',
            Edge::East => 'E',
            Edge::West => 'W',
        }),
        "IO_NORTH"@ == base ==> edge_of(name) == Some(Edge::North),
        "IO_SOUTH"@ == base ==> edge_of(name) == Some(Edge::South),
        "IO_EAST"@ == base ==> edge_of(name) == Some(Edge::East),
        "IO_WEST"@ == base ==> edge_of(name) == Some(Edge::West),
{
    reveal_strlit("IO_NORTH");
    reveal_strlit("IO_SOUTH");
    reveal_strlit("IO_EAST");
    reveal_strlit("IO_WEST");
    assert(name[3] == base[3]);
    assert("IO_NORTH"@.is_prefix_of(name) ==> name[3] == "IO_NORTH"@[3]);
    assert("IO_SOUTH"@.is_prefix_of(name) ==> name[3] == "IO_SOUTH"@[3]);
    assert("IO_EAST"@.is_prefix_of(name) ==> name[3] == "IO_EAST"@[3]);
    assert("IO_WEST"@.is_prefix_of(name) ==> name[3] == "IO_WEST"@[3]);
}

/// The row a cell is being placed into.
#[derive(Debug, PartialEq, Eq)]
pub struct RowGeom {
    pub name: String,
    /// The row's bounding box, `(x0, y0, x1, y1)`.
    pub bbox: Rect,
    pub orient: Orient,
    pub origin: (i32, i32),
    pub spacing: i32,
    pub site_count: i32,
}

impl Clone for RowGeom {
    fn clone(&self) -> (copy: RowGeom)
        ensures
            copy == *self,
    {
        RowGeom {
            name: self.name.clone(),
            bbox: self.bbox,
            orient: self.orient,
            origin: self.origin,
            spacing: self.spacing,
            site_count: self.site_count,
        }
    }
}

impl RowGeom {
    /// The edge the row runs along.
    pub fn edge(&self) -> (e: Option<Edge>)
        ensures
            e == edge_of(self.name@),
    {
        Edge::of_row(self.name.as_str())
    }
}

/// Where a cell ended up.
#[derive(Debug, Clone, PartialEq, Eq)]
pub struct Placement {
    pub name: String,
    pub master: String,
    pub x: i32,
    pub y: i32,
    pub orient: Orient,
}

/// What a placement is.
pub struct PlacementView {
    pub name: Seq<char>,
    pub master: Seq<char>,
    pub x: int,
    pub y: int,
    pub orient: Orient,
}

impl View for Placement {
    type V = PlacementView;

    open spec fn view(&self) -> PlacementView {
        PlacementView {
            name: self.name@,
            master: self.master@,
            x: self.x as int,
            y: self.y as int,
            orient: self.orient,
        }
    }
}

pub open spec fn placement_views(list: Seq<Placement>) -> Seq<PlacementView> {
    Seq::new(list.len(), |i: int| list[i]@)
}

/// Whether an orientation turns a cell by a quarter.
pub open spec fn quarter(orient: Orient) -> bool {
    orient == Orient::R90 || orient == Orient::R270 || orient == Orient::MYR90 || orient
        == Orient::MXR90
}

/// The size of a master once oriented.
///
/// A quarter-turn swaps width and height. Everything that positions a cell against the far side of
/// a row needs the oriented size, not the master's own.
pub fn oriented_size(width: i32, height: i32, orient: Orient) -> (size: (i32, i32))
    ensures
        size == if quarter(orient) { (height, width) } else { (width, height) },
{
    match orient {
        Orient::R90 | Orient::R270 | Orient::MYR90 | Orient::MXR90 => (height, width),
        _ => (width, height),
    }
}

/// A cell's oriented size is what its orientation makes of its two sides.
pub proof fn law_oriented_size(width: int, height: int, orient: Orient)
    requires
        width >= 0,
        height >= 0,
    ensures
        ({
            let corner = orient.image((width, height));
            let (w, h) = if quarter(orient) {
                (height, width)
            } else {
                (width, height)
            };
            (corner.0 == w || corner.0 == -w) && (corner.1 == h || corner.1 == -h)
        }),
{
}

/// `n / d` rounded to the nearest whole number, a tie going away from zero.
pub open spec fn nearest_quotient(n: int, d: int) -> int {
    if d < 0 {
        nearest_over(-n, -d)
    } else {
        nearest_over(n, d)
    }
}

/// The same, over a divisor above zero.
pub open spec fn nearest_over(n: int, d: int) -> int {
    if n < 0 {
        -((2 * (-n) + d) / (2 * d))
    } else {
        (2 * n + d) / (2 * d)
    }
}

/// The site nearest a distance along a row, held within the row. Where the sites have no distance
/// between them, anything past the start is at the end.
pub open spec fn site_at(distance: int, spacing: int, count: int) -> int {
    if spacing == 0 {
        if distance > 0 {
            count
        } else {
            0
        }
    } else {
        clip(nearest_quotient(distance, spacing), 0, count)
    }
}

/// The site nearest a distance along a row, held within the row.
pub fn nearest_site(distance: i128, spacing: i32, count: i32) -> (index: i32)
    requires
        -0x1_0000_0000_0000_0000_0000_0000_0000 <= distance <= 0x1_0000_0000_0000_0000_0000_0000_0000,
        count >= 0,
    ensures
        index == site_at(distance as int, spacing as int, count as int),
        0 <= index <= count,
{
    if spacing == 0 {
        return if distance > 0 { count } else { 0 };
    }
    let (n, d): (i128, i128) = if spacing < 0 {
        (-distance, -(spacing as i128))
    } else {
        (distance, spacing as i128)
    };
    if n < 0 {
        proof {
            vstd::arithmetic::div_mod::lemma_div_pos_is_pos(2 * (-n) + d, 2 * d);
        }
        return 0;
    }
    let q: i128 = (2 * n + d) / (2 * d);
    proof {
        vstd::arithmetic::div_mod::lemma_div_pos_is_pos(2 * n + d, 2 * d);
    }
    if q > count as i128 {
        count
    } else {
        q as i32
    }
}

/// The site index nearest a location along the row.
///
/// Rounded, not truncated: a location between two sites belongs to the closer one. Clamped to the
/// row, so a location beyond the end lands on the last site rather than off the die.
pub fn snap_to_site(location: i32, row: &RowGeom, edge: Edge) -> (index: i32)
    requires
        row.spacing > 0 ==> row.site_count >= 0,
    ensures
        row.spacing <= 0 ==> index == 0,
        row.spacing > 0 ==> index == site_at(
            location - (if edge.across() { row.origin.0 } else { row.origin.1 }),
            row.spacing as int,
            row.site_count as int,
        ),
{
    if row.spacing <= 0 {
        return 0;
    }
    let start: i32 = if edge.is_horizontal() { row.origin.0 } else { row.origin.1 };
    nearest_site(location as i128 - start as i128, row.spacing, row.site_count)
}

/// A snapped location is on the row, and no other site of the row is nearer.
pub proof fn law_snapped_is_nearest(distance: int, spacing: int, count: int, other: int)
    requires
        spacing > 0,
        0 <= other <= count,
    ensures
        ({
            let s = site_at(distance, spacing, count);
            let gap = |k: int| if distance < k * spacing { k * spacing - distance } else {
                distance - k * spacing
            };
            0 <= s <= count && gap(s) <= gap(other)
        }),
{
    let s = site_at(distance, spacing, count);
    let d = 2 * spacing;
    if distance < 0 {
        vstd::arithmetic::div_mod::lemma_div_pos_is_pos(2 * (-distance) + spacing, d);
        assert(s == 0);
        assert(other * spacing >= 0) by (nonlinear_arith)
            requires
                other >= 0,
                spacing > 0,
        ;
        assert(0 * spacing == 0) by (nonlinear_arith);
    } else {
        let n = 2 * distance + spacing;
        let q = n / d;
        vstd::arithmetic::div_mod::lemma_div_pos_is_pos(n, d);
        vstd::arithmetic::div_mod::lemma_fundamental_div_mod(n, d);
        vstd::arithmetic::div_mod::lemma_mod_bound(n, d);
        let r = n % d;
        assert(d * q == 2 * (q * spacing)) by (nonlinear_arith)
            requires
                d == 2 * spacing,
        ;
        assert(2 * (q * spacing) <= n < 2 * (q * spacing) + d);
        if s < other {
            assert(other * spacing >= s * spacing + spacing) by (nonlinear_arith)
                requires
                    other >= s + 1,
                    spacing > 0,
            ;
            assert(s == q);
        } else if other < s {
            assert(s * spacing >= other * spacing + spacing) by (nonlinear_arith)
                requires
                    s >= other + 1,
                    spacing > 0,
            ;
            assert(q * spacing >= s * spacing) by (nonlinear_arith)
                requires
                    q >= s,
                    spacing > 0,
            ;
        }
    }
}

/// The base orientation `-mirror` asks for.
///
/// On the side rows it depends on the site's proportions: a site wider than it is tall is mirrored
/// about X, otherwise about Y. The top and bottom rows always mirror about Y.
pub fn mirror_base(edge: Edge, site_width: i32, site_height: i32) -> (o: Orient)
    ensures
        o == if !edge.across() && site_height < site_width { Orient::MX } else { Orient::MY },
{
    match edge {
        Edge::North | Edge::South => Orient::MY,
        Edge::East | Edge::West => {
            if site_height < site_width {
                Orient::MX
            } else {
                Orient::MY
            }
        },
    }
}

/// Where a cell at a site index of a row stands.
pub open spec fn spot(
    index: int,
    row: RowGeom,
    edge: Edge,
    width: int,
    height: int,
    base: Orient,
) -> (int, int) {
    let turned = quarter(base.composed(row.orient));
    let (dx, dy) = if turned {
        (height, width)
    } else {
        (width, height)
    };
    let offset = index * row.spacing;
    let (x0, y0, x1, y1) = row.bbox;
    match edge {
        Edge::North => (x0 + offset, y1 - dy),
        Edge::South => (x0 + offset, y0 as int),
        Edge::West => (x0 as int, y0 + offset),
        Edge::East => (x1 - dx, y0 + offset),
    }
}

/// Whether a cell at a site index of a row stands within machine coordinates.
pub fn spot_fits(
    index: i32,
    row: &RowGeom,
    edge: Edge,
    master_width: i32,
    master_height: i32,
    base: Orient,
) -> (yes: bool)
    ensures
        ({
            let p = spot(
                index as int,
                *row,
                edge,
                master_width as int,
                master_height as int,
                base,
            );
            yes == (fits_i32(p.0) && fits_i32(p.1))
        }),
{
    let (x, y) = spot_wide(index, row, edge, master_width, master_height, base.concat(row.orient));
    i32::MIN as i64 <= x && x <= i32::MAX as i64 && i32::MIN as i64 <= y && y <= i32::MAX as i64
}

fn spot_wide(
    index: i32,
    row: &RowGeom,
    edge: Edge,
    master_width: i32,
    master_height: i32,
    orient: Orient,
) -> (p: (i64, i64))
    ensures
        forall|base: Orient| #[trigger]
            base.composed(row.orient) == orient ==> (p.0 as int, p.1 as int) == spot(
                index as int,
                *row,
                edge,
                master_width as int,
                master_height as int,
                base,
            ),
{
    let (dx, dy) = oriented_size(master_width, master_height, orient);
    let (i, s): (i64, i64) = (index as i64, row.spacing as i64);
    assert(-0x4000_0000_0000_0000 <= i * s <= 0x4000_0000_0000_0000) by (nonlinear_arith)
        requires
            -0x8000_0000 <= i <= 0x8000_0000,
            -0x8000_0000 <= s <= 0x8000_0000,
    ;
    let offset: i64 = i * s;
    let (x0, y0, x1, y1) = row.bbox;
    match edge {
        Edge::North => (x0 as i64 + offset, y1 as i64 - dy as i64),
        Edge::South => (x0 as i64 + offset, y0 as i64),
        Edge::West => (x0 as i64, y0 as i64 + offset),
        Edge::East => (x1 as i64 - dx as i64, y0 as i64 + offset),
    }
}

/// Place a cell at a site index in a row.
///
/// The cell's orientation is the base composed with the row's own: the row is already turned to
/// face outward, and the base is whatever the caller asked on top of that.
///
/// The north and east rows position by the cell's far edge, subtracting its oriented size, because
/// a row hangs inward from the ring's outer bound. South and west position by the near edge.
pub fn place_in_row(
    index: i32,
    row: &RowGeom,
    edge: Edge,
    master_width: i32,
    master_height: i32,
    base: Orient,
) -> (r: (i32, i32, Orient))
    requires
        ({
            let p = spot(
                index as int,
                *row,
                edge,
                master_width as int,
                master_height as int,
                base,
            );
            fits_i32(p.0) && fits_i32(p.1)
        }),
    ensures
        r.2 == base.composed(row.orient),
        (r.0 as int, r.1 as int) == spot(
            index as int,
            *row,
            edge,
            master_width as int,
            master_height as int,
            base,
        ),
{
    let orient = base.concat(row.orient);
    let (x, y) = spot_wide(index, row, edge, master_width, master_height, orient);
    (x as i32, y as i32, orient)
}

/// The corner cell of a row.
pub open spec fn corner_of(row: RowGeom, master: Seq<char>) -> PlacementView {
    PlacementView {
        name: row.name@ + "_INST"@,
        master,
        x: row.origin.0 as int,
        y: row.origin.1 as int,
        orient: row.orient,
    }
}

/// A corner cell: the row's own origin, the row's own orientation.
///
/// The instance is named after the row it fills, so a second call finds and re-places the same cell
/// rather than making another.
pub fn corner_placement(row: &RowGeom, master: &str) -> (p: Placement)
    ensures
        p@ == corner_of(*row, master@),
{
    Placement {
        name: concat(row.name.as_str(), "_INST"),
        master: master.to_owned(),
        x: row.origin.0,
        y: row.origin.1,
        orient: row.orient,
    }
}

/// The four corner rows, in the order corners are placed.
///
/// Not the order the ring is built in: the ring emits NW, NE, SE, SW; corners are placed NW, NE, SW,
/// SE. It only shows when two corners contend for the same space and the first one there wins.
pub fn corner_row_names(ring_index: i32) -> (names: [String; 4])
    ensures
        names@[0]@ == indexed_name("IO_CORNER_NORTH_WEST"@, ring_index as int),
        names@[1]@ == indexed_name("IO_CORNER_NORTH_EAST"@, ring_index as int),
        names@[2]@ == indexed_name("IO_CORNER_SOUTH_WEST"@, ring_index as int),
        names@[3]@ == indexed_name("IO_CORNER_SOUTH_EAST"@, ring_index as int),
{
    [
        row_name("IO_CORNER_NORTH_WEST", ring_index),
        row_name("IO_CORNER_NORTH_EAST", ring_index),
        row_name("IO_CORNER_SOUTH_WEST", ring_index),
        row_name("IO_CORNER_SOUTH_EAST", ring_index),
    ]
}

/// Two boxes share area: touching is not overlapping.
pub open spec fn share_area(a: (int, int, int, int), b: (int, int, int, int)) -> bool {
    a.0 < b.2 && b.0 < a.2 && a.1 < b.3 && b.1 < a.3
}

/// Would a cell of this size at this spot hit something already there?
///
/// Touching is not overlapping: two cells abutting exactly share an edge and no area, which is how a
/// filled row is supposed to look.
pub fn overlaps(at: (i32, i32), size: (i32, i32), blockers: &[Rect]) -> (b: bool)
    ensures
        b == exists|i: int|
            0 <= i < blockers.len() && share_area(
                (at.0 as int, at.1 as int, at.0 + size.0, at.1 + size.1),
                crate::geom::rt(#[trigger] blockers@[i]),
            ),
{
    let (x0, y0): (i64, i64) = (at.0 as i64, at.1 as i64);
    let (x1, y1): (i64, i64) = (x0 + size.0 as i64, y0 + size.1 as i64);
    let ghost cell = (at.0 as int, at.1 as int, at.0 + size.0, at.1 + size.1);
    let mut i: usize = 0;
    while i < blockers.len()
        invariant
            i <= blockers.len(),
            cell == (x0 as int, y0 as int, x1 as int, y1 as int),
            cell == (at.0 as int, at.1 as int, at.0 + size.0, at.1 + size.1),
            forall|k: int|
                0 <= k < i ==> !share_area(cell, crate::geom::rt(#[trigger] blockers@[k])),
        decreases blockers.len() - i,
    {
        let r = blockers[i];
        if x0 < r.2 as i64 && (r.0 as i64) < x1 && y0 < r.3 as i64 && (r.1 as i64) < y1 {
            assert(share_area(cell, crate::geom::rt(blockers@[i as int])));
            return true;
        }
        i += 1;
    }
    false
}

/// A location half-way between two sites goes to the further one.
pub proof fn law_tie_goes_on(distance: int, spacing: int, count: int, k: int)
    requires
        spacing > 0,
        0 <= k < count,
        2 * distance == (2 * k + 1) * spacing,
    ensures
        site_at(distance, spacing, count) == k + 1,
{
    assert(2 * distance + spacing == (k + 1) * (2 * spacing) + 0 && distance >= 0) by (nonlinear_arith)
        requires
            2 * distance == (2 * k + 1) * spacing,
            spacing > 0,
            k >= 0,
    ;
    vstd::arithmetic::div_mod::lemma_fundamental_div_mod_converse(
        2 * distance + spacing,
        2 * spacing,
        k + 1,
        0,
    );
}

/// Where a cell stands: its outer side lies on the row's, and it starts as many sites along the row as
/// its index says. Its sides are what its orientation, the row's on top of its own, makes of them.
pub proof fn law_cell_hangs_from_the_outer_side(
    index: int,
    row: RowGeom,
    edge: Edge,
    width: int,
    height: int,
    base: Orient,
)
    requires
        width >= 0,
        height >= 0,
    ensures
        ({
            let at = spot(index, row, edge, width, height, base);
            let far = base.composed(row.orient).image((width, height));
            let w = if far.0 < 0 { -far.0 } else { far.0 };
            let h = if far.1 < 0 { -far.1 } else { far.1 };
            let (left, bottom, right, top) = row.bbox;
            &&& edge == Edge::North ==> at.1 + h == top && at.0 - left == index * row.spacing
            &&& edge == Edge::South ==> at.1 == bottom && at.0 - left == index * row.spacing
            &&& edge == Edge::West ==> at.0 == left && at.1 - bottom == index * row.spacing
            &&& edge == Edge::East ==> at.0 + w == right && at.1 - bottom == index * row.spacing
        }),
{
}

/// The unit square with this lower-left corner lies in the box.
pub open spec fn unit_in(r: (int, int, int, int), x: int, y: int) -> bool {
    r.0 <= x && x + 1 <= r.2 && r.1 <= y && y + 1 <= r.3
}

/// Two boxes share area exactly where some unit square lies in both: a box that only touches another
/// shares none with it.
pub proof fn law_shared_area(a: (int, int, int, int), b: (int, int, int, int))
    requires
        a.0 < a.2 && a.1 < a.3 && b.0 < b.2 && b.1 < b.3,
    ensures
        share_area(a, b) <==> exists|x: int, y: int| #[trigger] unit_in(a, x, y) && unit_in(b, x, y),
{
    if share_area(a, b) {
        let x = if a.0 < b.0 { b.0 } else { a.0 };
        let y = if a.1 < b.1 { b.1 } else { a.1 };
        assert(unit_in(a, x, y) && unit_in(b, x, y));
    }
}

/// A corner cell stands on its row's origin, turned as the row is, and cells of rows that have different
/// names have different names.
pub proof fn law_corner_stands_on_its_row(a: RowGeom, b: RowGeom, m: Seq<char>, n: Seq<char>)
    ensures
        corner_of(a, m).x == a.origin.0 && corner_of(a, m).y == a.origin.1,
        corner_of(a, m).orient == a.orient && corner_of(a, m).master == m,
        corner_of(a, m).name == corner_of(b, n).name <==> a.name@ == b.name@,
{
    let (x, y) = (corner_of(a, m).name, corner_of(b, n).name);
    if x == y {
        assert(a.name@ =~= x.take(x.len() - "_INST"@.len()));
        assert(b.name@ =~= y.take(y.len() - "_INST"@.len()));
    }
}

} // verus!
