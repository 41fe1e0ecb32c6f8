use vyges_pad::{
    corner_placement, corner_row_names, mirror_base, oriented_size, overlaps, place_in_row,
    snap_to_site, Edge, Orient, RowGeom,
};

fn east_row() -> RowGeom {
    RowGeom {
        name: "IO_EAST".into(),
        bbox: (5_690_000, 310_000, 5_970_000, 5_690_000),
        orient: Orient::R90,
        origin: (5_690_000, 310_000),
        spacing: 2_000,
        site_count: 2_690,
    }
}

fn south_row() -> RowGeom {
    RowGeom {
        name: "IO_SOUTH".into(),
        bbox: (310_000, 30_000, 5_690_000, 310_000),
        orient: Orient::R0,
        origin: (310_000, 30_000),
        spacing: 2_000,
        site_count: 2_690,
    }
}

fn north_row() -> RowGeom {
    RowGeom {
        name: "IO_NORTH".into(),
        bbox: (310_000, 5_690_000, 5_690_000, 5_970_000),
        orient: Orient::MX,
        origin: (310_000, 5_690_000),
        spacing: 2_000,
        site_count: 2_690,
    }
}

fn west_row() -> RowGeom {
    RowGeom {
        name: "IO_WEST".into(),
        bbox: (30_000, 310_000, 310_000, 5_690_000),
        orient: Orient::MXR90,
        origin: (30_000, 310_000),
        spacing: 2_000,
        site_count: 2_690,
    }
}

const PAD_W: i32 = 160_000;
const PAD_H: i32 = 280_000;

#[test]
fn a_rows_edge_comes_from_its_name_and_survives_a_ring_suffix() {
    assert_eq!(Edge::of_row("IO_NORTH"), Some(Edge::North));
    assert_eq!(Edge::of_row("IO_NORTH_2"), Some(Edge::North), "a ring suffix is still north");
    assert_eq!(Edge::of_row("IO_EAST"), Some(Edge::East));
    assert_eq!(Edge::of_row("IO_CORNER_NORTH_WEST"), None);
    assert_eq!(Edge::of_row("CORE_ROW_1"), None);
}

#[test]
fn a_quarter_turn_swaps_the_cells_width_and_height() {
    assert_eq!(oriented_size(100, 300, Orient::R0), (100, 300));
    assert_eq!(oriented_size(100, 300, Orient::MX), (100, 300), "a mirror does not transpose");
    assert_eq!(oriented_size(100, 300, Orient::R90), (300, 100));
    assert_eq!(oriented_size(100, 300, Orient::MXR90), (300, 100));
}

#[test]
fn a_location_snaps_to_the_nearest_site_and_cannot_leave_the_row() {
    let row = south_row();
    assert_eq!(snap_to_site(1_200_000, &row, Edge::South), 445);
    assert_eq!(snap_to_site(310_000 + 1_100, &row, Edge::South), 1);
    assert_eq!(snap_to_site(310_000 + 900, &row, Edge::South), 0);
    assert_eq!(snap_to_site(0, &row, Edge::South), 0);
    assert_eq!(snap_to_site(i32::MAX / 2, &row, Edge::South), row.site_count);
}

#[test]
fn a_pad_lands_where_the_reference_puts_it_on_every_edge() {
    let cases = [
        (east_row(), Edge::East, 1_000_000, (5_690_000, 1_000_000), "W"),
        (west_row(), Edge::West, 1_200_000, (30_000, 1_200_000), "FW"),
        (north_row(), Edge::North, 1_000_000, (1_000_000, 5_690_000), "FS"),
        (south_row(), Edge::South, 1_200_000, (1_200_000, 30_000), "N"),
    ];
    for (row, edge, location, want_pos, want_orient) in cases {
        let idx = snap_to_site(location, &row, edge);
        let (x, y, o) = place_in_row(idx, &row, edge, PAD_W, PAD_H, Orient::R0);
        assert_eq!((x, y), want_pos, "{} position", row.name);
        assert_eq!(o.def(), want_orient, "{} orientation", row.name);
    }
}

#[test]
fn mirroring_gives_the_orientation_the_reference_records_on_each_edge() {
    let site = (2_000, 280_000);
    let cases = [
        (east_row(), Edge::East, "FE"),
        (west_row(), Edge::West, "E"),
        (north_row(), Edge::North, "S"),
        (south_row(), Edge::South, "FN"),
    ];
    for (row, edge, want) in cases {
        let base = mirror_base(edge, site.0, site.1);
        let (_, _, o) = place_in_row(0, &row, edge, PAD_W, PAD_H, base);
        assert_eq!(o.def(), want, "{} mirrored", row.name);
    }
}

#[test]
fn a_wide_site_mirrors_the_side_rows_the_other_way() {
    assert_eq!(mirror_base(Edge::East, 280_000, 2_000), Orient::MX, "wider than tall");
    assert_eq!(mirror_base(Edge::East, 2_000, 280_000), Orient::MY, "taller than wide");
    assert_eq!(mirror_base(Edge::North, 280_000, 2_000), Orient::MY, "top and bottom always MY");
}

#[test]
fn the_north_and_east_rows_position_by_the_cells_far_edge() {
    let north = north_row();
    let (_, ny, _) = place_in_row(0, &north, Edge::North, PAD_W, PAD_H, Orient::R0);
    assert_eq!(ny, north.bbox.3 - PAD_H, "north subtracts the cell depth");
    assert_eq!(ny, north.bbox.1, "which lands it on the row's own origin here");

    let south = south_row();
    let (_, sy, _) = place_in_row(0, &south, Edge::South, PAD_W, PAD_H, Orient::R0);
    assert_eq!(sy, south.bbox.1, "south does not subtract");
}

#[test]
fn a_corner_takes_its_rows_origin_and_orientation_and_is_named_after_it() {
    let row = RowGeom {
        name: "IO_CORNER_NORTH_WEST".into(),
        bbox: (70_000, 5_650_000, 350_000, 5_930_000),
        orient: Orient::MX,
        origin: (70_000, 5_650_000),
        spacing: 2_000,
        site_count: 140,
    };
    let p = corner_placement(&row, "PAD_CORNER");
    assert_eq!(p.name, "IO_CORNER_NORTH_WEST_INST");
    assert_eq!((p.x, p.y), (70_000, 5_650_000));
    assert_eq!(p.orient.def(), "FS");
}

#[test]
fn corners_are_visited_in_a_different_order_than_the_ring_is_built() {
    let names = corner_row_names(-1);
    assert_eq!(names[2], "IO_CORNER_SOUTH_WEST", "south-west is third, not fourth");
    assert_eq!(names[3], "IO_CORNER_SOUTH_EAST");
    assert_eq!(corner_row_names(1)[0], "IO_CORNER_NORTH_WEST_1", "the ring suffix carries");
}

#[test]
fn place_touching_is_not_overlapping() {
    let blockers = [(100, 100, 200, 200)];
    assert!(overlaps((150, 150), (10, 10), &blockers), "straight through it");
    assert!(!overlaps((200, 100), (50, 50), &blockers), "abutting on the right");
    assert!(!overlaps((50, 100), (50, 50), &blockers), "abutting on the left");
    assert!(!overlaps((300, 300), (10, 10), &blockers), "well clear");
    assert!(!overlaps((150, 150), (10, 10), &[]), "nothing to hit");
}

#[test]
fn a_corner_that_would_land_on_something_is_detected() {
    let sw = (70_000, 70_000);
    let corner = (280_000, 280_000);
    let overlap_cell = [(80_000, 80_000, 80_000 + 2_000, 80_000 + 2_000)];
    assert!(overlaps(sw, corner, &overlap_cell));
    assert!(!overlaps((5_650_000, 5_650_000), corner, &overlap_cell));
}

#[test]
fn a_corner_goes_by_its_rows_origin_and_not_by_its_box() {
    let row = RowGeom {
        name: "IO_CORNER_NORTH_WEST".into(),
        bbox: (0, 0, 280, 280),
        orient: Orient::MX,
        origin: (5, 7),
        spacing: 2,
        site_count: 140,
    };
    let p = corner_placement(&row, "PAD_CORNER");
    assert_eq!((p.x, p.y, p.orient), (5, 7, Orient::MX));
    assert_eq!(p.name, "IO_CORNER_NORTH_WEST_INST");
}
