//! IO pad and bump placement.
//!
//! A chip talks to its package through a ring of IO cells around the die edge, and through an
//! array of bumps over its face. This library builds that ring, places into it, and routes the
//! redistribution layer between the two. Nothing here reads a database: callers hand values in.

pub mod abut;
pub mod along;
pub mod assign;
pub mod bond;
pub mod bump;
pub mod clearance;
pub mod command;
pub mod design;
pub mod fill;
pub mod geom;
pub mod lists;
pub mod options;
pub mod orient;
pub mod pads;
pub mod place;
pub mod rdl;
pub mod report;
pub mod ring;
pub mod rounding;
pub mod single;
pub mod sort;
pub mod spread;
pub mod text;

pub use bump::bumps;
pub use clearance::{intersects, outline_of, refuse, transform, Blocker, Shape};
pub use orient::Orient;
pub use place::{
    corner_placement, corner_row_names, mirror_base, oriented_size, overlaps, place_in_row,
    snap_to_site, Edge, Placement, RowGeom,
};
pub use ring::{make_rows, row_name, Offsets, Rotations, Row, RowDir, Site};
