//! The bump array: a grid of package connections over the face of the die.
//!
//! Bumps are not part of the ring. They sit above the design on a cover layer, on a regular lattice,
//! and the die's own cells pass underneath them. That is why a bump never blocks a placement by its
//! bounding box and why this is a grid rather than a row.

use crate::geom::fits_i32;
use crate::orient::Orient;
use crate::place::{placement_views, Placement, PlacementView};
use crate::text::{decimal, push_int, trimmed, trims_to_start};
use vstd::prelude::*;
use vstd::string::*;

verus! {

/// The default name prefix, when the caller does not give one.
pub const DEFAULT_PREFIX: &'static str = "BUMP_";

/// What a bump array is made from.
#[derive(Debug, PartialEq, Eq)]
pub struct Array {
    pub master: String,
    pub prefix: String,
    /// Lower-left bump, in database units.
    pub origin: (i32, i32),
    pub rows: i32,
    pub columns: i32,
    /// Distance between bumps, in database units. The two axes are independent.
    pub pitch: (i32, i32),
}

impl Clone for Array {
    fn clone(&self) -> (copy: Array)
        ensures
            copy == *self,
    {
        Array {
            master: self.master.clone(),
            prefix: self.prefix.clone(),
            origin: self.origin,
            rows: self.rows,
            columns: self.columns,
            pitch: self.pitch,
        }
    }
}

/// The bump of a column and a row: named column first, placed by the two pitches, not rotated.
pub open spec fn bump(a: Array, col: int, row: int) -> PlacementView {
    PlacementView {
        name: a.prefix@ + decimal(col) + "_"@ + decimal(row),
        master: a.master@,
        x: a.origin.0 + col * a.pitch.0,
        y: a.origin.1 + row * a.pitch.1,
        orient: Orient::R0,
    }
}

pub open spec fn count(n: i32) -> nat {
    if n < 0 {
        0
    } else {
        n as nat
    }
}

/// Every bump of the array, column by column.
pub open spec fn lattice(a: Array) -> Seq<PlacementView> {
    let rows = count(a.rows) as int;
    Seq::new(count(a.columns) * count(a.rows), |k: int| bump(a, k / rows, k % rows))
}

pub open spec fn lattice_fits(a: Array) -> bool {
    forall|col: int, row: int|
        0 <= col < a.columns && 0 <= row < a.rows ==> fits_i32((#[trigger] bump(a, col, row)).x)
            && fits_i32(bump(a, col, row).y)
}

fn make_bump(a: &Array, col: i32, row: i32) -> (p: Placement)
    requires
        0 <= col < a.columns,
        0 <= row < a.rows,
        lattice_fits(*a),
    ensures
        p@ == bump(*a, col as int, row as int),
{
    let mut name = a.prefix.clone();
    push_int(&mut name, col as i64);
    name.append("_");
    push_int(&mut name, row as i64);
    let (c, r): (i64, i64) = (col as i64, row as i64);
    let (px, py): (i64, i64) = (a.pitch.0 as i64, a.pitch.1 as i64);
    assert(-0x4000_0000_0000_0000 <= c * px <= 0x4000_0000_0000_0000 && -0x4000_0000_0000_0000 <= r
        * py <= 0x4000_0000_0000_0000) by (nonlinear_arith)
        requires
            0 <= c <= 0x8000_0000,
            0 <= r <= 0x8000_0000,
            -0x8000_0000 <= px <= 0x8000_0000,
            -0x8000_0000 <= py <= 0x8000_0000,
    ;
    assert(fits_i32(bump(*a, col as int, row as int).x));
    Placement {
        name,
        master: a.master.clone(),
        x: (a.origin.0 as i64 + c * px) as i32,
        y: (a.origin.1 as i64 + r * py) as i32,
        orient: Orient::R0,
    }
}

/// Whether every bump of the array lies within machine coordinates.
pub fn array_fits(a: &Array) -> (yes: bool)
    ensures
        yes == lattice_fits(*a),
{
    if a.columns <= 0 || a.rows <= 0 {
        return true;
    }
    let (c, r): (i64, i64) = (a.columns as i64 - 1, a.rows as i64 - 1);
    let (px, py): (i64, i64) = (a.pitch.0 as i64, a.pitch.1 as i64);
    assert(-0x4000_0000_0000_0000 <= c * px <= 0x4000_0000_0000_0000 && -0x4000_0000_0000_0000 <= r
        * py <= 0x4000_0000_0000_0000) by (nonlinear_arith)
        requires
            0 <= c <= 0x8000_0000,
            0 <= r <= 0x8000_0000,
            -0x8000_0000 <= px <= 0x8000_0000,
            -0x8000_0000 <= py <= 0x8000_0000,
    ;
    let (x, y): (i64, i64) = (a.origin.0 as i64 + c * px, a.origin.1 as i64 + r * py);
    let yes = i32::MIN as i64 <= x && x <= i32::MAX as i64 && i32::MIN as i64 <= y && y
        <= i32::MAX as i64;
    proof {
        let last = bump(*a, c as int, r as int);
        assert(last.x == x && last.y == y);
        if yes {
            assert forall|col: int, row: int| 0 <= col < a.columns && 0 <= row < a.rows implies
                fits_i32((#[trigger] bump(*a, col, row)).x) && fits_i32(bump(*a, col, row).y) by {
                assert((0 <= col * px <= c * px || c * px <= col * px <= 0) && (0 <= row * py <= r
                    * py || r * py <= row * py <= 0)) by (nonlinear_arith)
                    requires
                        0 <= col <= c,
                        0 <= row <= r,
                ;
            }
        }
    }
    yes
}

/// Every bump in the array.
///
/// The name is `<prefix><column>_<row>`, column first: x before y, so a grid named row-first is a
/// different design. Emitted column by column.
pub fn bumps(a: &Array) -> (out: Vec<Placement>)
    requires
        lattice_fits(*a),
    ensures
        placement_views(out@) == lattice(*a),
{
    let mut out: Vec<Placement> = Vec::new();
    let ghost rows = count(a.rows) as int;
    let mut col: i32 = 0;
    while col < a.columns
        invariant
            0 <= col,
            col <= a.columns || (col == 0 && a.columns < 0),
            rows == count(a.rows),
            lattice_fits(*a),
            out@.len() == col * rows,
            forall|k: int|
                0 <= k < out@.len() ==> (#[trigger] out@[k])@ == bump(*a, k / rows, k % rows),
        decreases a.columns - col,
    {
        let mut row: i32 = 0;
        while row < a.rows
            invariant
                0 <= col < a.columns,
                0 <= row,
                row <= a.rows || (row == 0 && a.rows < 0),
                rows == count(a.rows),
                lattice_fits(*a),
                out@.len() == col * rows + row,
                forall|k: int|
                    0 <= k < out@.len() ==> (#[trigger] out@[k])@ == bump(*a, k / rows, k % rows),
            decreases a.rows - row,
        {
            proof {
                vstd::arithmetic::div_mod::lemma_fundamental_div_mod_converse(
                    col * rows + row,
                    rows,
                    col as int,
                    row as int,
                );
            }
            out.push(make_bump(a, col, row));
            row += 1;
        }
        assert((col + 1) * rows == col * rows + rows) by (nonlinear_arith);
        col += 1;
    }
    assert(col * rows == count(a.columns) * count(a.rows)) by {
        if a.columns < 0 {
            assert(0 * rows == 0) by (nonlinear_arith);
        }
    }
    assert(placement_views(out@) =~= lattice(*a));
    out
}

/// The class is that of a bump: it starts with one of the two spellings, white space aside.
pub open spec fn is_bump_class(class: Seq<char>) -> bool {
    "COVER BUMP"@.is_prefix_of(trimmed(class)) || "COVER_BUMP"@.is_prefix_of(trimmed(class))
}

/// Is this master a bump?
///
/// A prefix test: a class is reported the way its declaration spells it, `COVER BUMP`, while it is
/// also known as `COVER_BUMP`; the two spellings meet here.
pub fn is_bump_master(class: &str) -> (b: bool)
    ensures
        b == ("COVER BUMP"@.is_prefix_of(trimmed(class@)) || "COVER_BUMP"@.is_prefix_of(
            trimmed(class@),
        )),
{
    trims_to_start(class, "COVER BUMP") || trims_to_start(class, "COVER_BUMP")
}

/// No two bumps of an array have the same name.
pub proof fn law_names_distinct(a: Array, col: int, row: int, other_col: int, other_row: int)
    requires
        col >= 0,
        row >= 0,
        other_col >= 0,
        other_row >= 0,
        bump(a, col, row).name == bump(a, other_col, other_row).name,
    ensures
        col == other_col,
        row == other_row,
{
    let (x, y) = (a.prefix@ + decimal(col), a.prefix@ + decimal(other_col));
    crate::text::lemma_numbered(x, row as nat, y, other_row as nat);
    assert(decimal(col) =~= x.skip(a.prefix@.len() as int));
    assert(decimal(other_col) =~= y.skip(a.prefix@.len() as int));
    crate::text::lemma_digits_injective(col as nat, other_col as nat);
}

/// The bumps stand column by column, each as many pitches from the origin as its column and its row say.
pub proof fn law_bumps_on_their_pitches(a: Array, col: int, row: int)
    requires
        0 <= col < a.columns,
        0 <= row < a.rows,
    ensures
        lattice(a).len() == a.columns * a.rows,
        0 <= col * a.rows + row < lattice(a).len(),
        ({
            let b = lattice(a)[col * a.rows + row];
            &&& b.x - a.origin.0 == col * a.pitch.0
            &&& b.y - a.origin.1 == row * a.pitch.1
            &&& b.orient == Orient::R0
            &&& b.master == a.master@
            &&& b.name == a.prefix@ + decimal(col) + "_"@ + decimal(row)
        }),
{
    let rows = a.rows as int;
    vstd::arithmetic::div_mod::lemma_fundamental_div_mod_converse(col * rows + row, rows, col, row);
    assert(0 <= col * rows && col * rows + row < a.columns * rows) by (nonlinear_arith)
        requires
            0 <= col <= a.columns - 1,
            0 <= row < rows,
    ;
}

} // verus!
