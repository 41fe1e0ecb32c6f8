//! The redistribution-layer router.
//!
//! Routing on the redistribution layer connects bumps to pads across the face of the die on a
//! single thick layer. The search runs over a graph built from that layer's track grid, thinned so
//! that neighbouring wires can never be closer than the requested spacing.

pub mod access;
pub mod cheapest;
pub mod collapse;
pub mod commit;
pub mod connect;
pub mod cost;
pub mod graft;
pub mod graph;
pub mod grid;
pub mod heap;
pub mod laid;
pub mod mesh;
pub mod obstacle;
pub mod octagon;
pub mod price;
pub mod queue;
pub mod restore;
pub mod ripup;
pub mod route;
pub mod router;
pub mod runs;
pub mod search;
pub mod touch;
pub mod wire;

pub use crate::geom::{Point, Rect};
pub use access::{
    access_blocked, access_points, nearest_tracks, snaps_clear_of_diagonal_pin_edges, Target,
};
pub use commit::{commit_corridor, commit_route};
pub use connect::{is_routed, routed_pairs};
pub use cost::{distance, edge_weight, restore_scale};
pub use graft::insert_access;
pub use graph::{undo_access, Graph, Undo};
pub use grid::{grid, thin, Grid};
pub use mesh::{edges, edges_clear, neighbours};
pub use obstacle::{
    blocked, hits, segment_hits_polygon, segments_intersect, swire_obstructs, Obstacle,
};
pub use octagon::{edge_obstruction, oct_points};
pub use route::{
    allows_ripup, failed_routes, is_failed, order_dests, ripup_probe, ripup_targets, target_pairs,
    Dest, Route,
};
pub use router::{route_all, Routed, Terminal};
pub use search::shortest_path;
pub use wire::{correct_end, run_rect, simplify, wires, Wire};
