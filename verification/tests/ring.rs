use vyges_pad::{make_rows, row_name, Offsets, Orient, Rotations, Row, RowDir, Site};

fn iosite() -> Site {
    Site { name: "IOSITE".into(), width: 2_000, height: 280_000 }
}

const DIE: (i32, i32, i32, i32) = (0, 0, 6_000_000, 6_000_000);

fn find<'a>(rows: &'a [Row], name: &str) -> &'a Row {
    rows.iter().find(|r| r.name == name).unwrap_or_else(|| panic!("no row {name}"))
}

fn as_def(r: &Row) -> String {
    let (dx, dy) = match r.dir {
        RowDir::Horizontal => (r.sites, 1),
        RowDir::Vertical => (1, r.sites),
    };
    let (sx, sy) = match r.dir {
        RowDir::Horizontal => (r.pitch, 0),
        RowDir::Vertical => (0, r.pitch),
    };
    format!(
        "ROW {} {} {} {} {} DO {} BY {} STEP {} {} ;",
        r.name,
        r.site,
        r.x,
        r.y,
        r.orient.def(),
        dx,
        dy,
        sx,
        sy
    )
}

#[test]
fn a_site_is_measured_by_its_short_and_long_sides_not_width_and_height() {
    let s = iosite();
    assert_eq!(s.pitch(), 2_000);
    assert_eq!(s.depth(), 280_000);
    let sideways = Site { name: "x".into(), width: 280_000, height: 2_000 };
    assert_eq!(sideways.pitch(), 2_000, "orientation of the site does not change its pitch");
    assert_eq!(sideways.depth(), 280_000);
}

#[test]
fn a_ring_index_of_minus_one_leaves_the_name_bare() {
    assert_eq!(row_name("IO_NORTH", -1), "IO_NORTH");
    assert_eq!(row_name("IO_NORTH", 0), "IO_NORTH_0");
    assert_eq!(row_name("IO_NORTH", 3), "IO_NORTH_3");
}

#[test]
fn the_ring_reproduces_the_reference_golden_exactly() {
    let s = iosite();
    let rows = make_rows(
        DIE,
        &s,
        &s,
        &s,
        Offsets { west: 30_000, north: 30_000, east: 30_000, south: 30_000 },
        Rotations::default(),
        -1,
        true,
    );
    let want = [
        "ROW IO_CORNER_NORTH_WEST IOSITE 30000 5690000 FS DO 140 BY 1 STEP 2000 0 ;",
        "ROW IO_CORNER_NORTH_EAST IOSITE 5690000 5690000 S DO 140 BY 1 STEP 2000 0 ;",
        "ROW IO_CORNER_SOUTH_EAST IOSITE 5690000 30000 FN DO 140 BY 1 STEP 2000 0 ;",
        "ROW IO_CORNER_SOUTH_WEST IOSITE 30000 30000 N DO 140 BY 1 STEP 2000 0 ;",
        "ROW IO_NORTH IOSITE 310000 5690000 FS DO 2690 BY 1 STEP 2000 0 ;",
        "ROW IO_EAST IOSITE 5690000 310000 W DO 1 BY 2690 STEP 0 2000 ;",
        "ROW IO_SOUTH IOSITE 310000 30000 N DO 2690 BY 1 STEP 2000 0 ;",
        "ROW IO_WEST IOSITE 30000 310000 FW DO 1 BY 2690 STEP 0 2000 ;",
    ];
    let got: Vec<String> = rows.iter().map(as_def).collect();
    assert_eq!(got, want);
}

#[test]
fn giving_the_two_directions_different_sites_turns_the_side_rows_upright() {
    let hor = Site { name: "HORIZONTAL".into(), width: 100_000, height: 2_000 };
    let ver = Site { name: "VERTICAL".into(), width: 2_000, height: 100_000 };
    let cor = Site { name: "CORNER".into(), width: 100_000, height: 100_000 };
    let rows = make_rows(
        DIE,
        &hor,
        &ver,
        &cor,
        Offsets { west: 30_000, north: 30_000, east: 30_000, south: 30_000 },
        Rotations::default(),
        -1,
        false,
    );
    let want = [
        "ROW IO_CORNER_NORTH_WEST CORNER 30000 5870000 FS DO 1 BY 1 STEP 100000 0 ;",
        "ROW IO_CORNER_NORTH_EAST CORNER 5870000 5870000 S DO 1 BY 1 STEP 100000 0 ;",
        "ROW IO_CORNER_SOUTH_EAST CORNER 5870000 30000 FN DO 1 BY 1 STEP 100000 0 ;",
        "ROW IO_CORNER_SOUTH_WEST CORNER 30000 30000 N DO 1 BY 1 STEP 100000 0 ;",
        "ROW IO_NORTH VERTICAL 130000 5870000 FS DO 2870 BY 1 STEP 2000 0 ;",
        "ROW IO_EAST HORIZONTAL 5870000 130000 FN DO 1 BY 2870 STEP 0 2000 ;",
        "ROW IO_SOUTH VERTICAL 130000 30000 N DO 2870 BY 1 STEP 2000 0 ;",
        "ROW IO_WEST HORIZONTAL 30000 130000 N DO 1 BY 2870 STEP 0 2000 ;",
    ];
    let got: Vec<String> = rows.iter().map(as_def).collect();
    assert_eq!(got, want);
}

#[test]
fn the_user_rotations_compose_on_top_of_each_rows_own_orientation() {
    let s = iosite();
    let s2 = Site { name: "IOSITE2".into(), ..iosite() };
    let rows = make_rows(
        DIE,
        &s,
        &s2,
        &s,
        Offsets { west: 30_000, north: 30_000, east: 30_000, south: 30_000 },
        Rotations {
            horizontal: Orient::MXR90,
            vertical: Orient::MY,
            corner: Orient::R0,
        },
        -1,
        false,
    );
    assert_eq!(find(&rows, "IO_NORTH").orient.def(), "S", "MY over the north edge's MX");
    assert_eq!(find(&rows, "IO_SOUTH").orient.def(), "FN", "MY over the south edge's R0");
    assert_eq!(find(&rows, "IO_EAST").orient.def(), "W", "MXR90 over the flipped west");
    assert_eq!(find(&rows, "IO_WEST").orient.def(), "FW");
    assert_eq!(find(&rows, "IO_CORNER_NORTH_WEST").orient.def(), "FS");
}

#[test]
fn the_ring_closes_with_no_gap_between_a_corner_and_the_edge_it_abuts() {
    let s = iosite();
    let rows = make_rows(
        DIE,
        &s,
        &s,
        &s,
        Offsets { west: 30_000, north: 30_000, east: 30_000, south: 30_000 },
        Rotations::default(),
        -1,
        true,
    );
    let corner_span = find(&rows, "IO_CORNER_SOUTH_WEST").sites * s.width;
    assert_eq!(
        find(&rows, "IO_SOUTH").x,
        find(&rows, "IO_CORNER_SOUTH_WEST").x + corner_span,
        "the south row starts where the south-west corner ends"
    );
    assert_eq!(
        find(&rows, "IO_NORTH").x,
        find(&rows, "IO_CORNER_NORTH_WEST").x + corner_span,
    );
    assert_eq!(
        find(&rows, "IO_WEST").y,
        find(&rows, "IO_CORNER_SOUTH_WEST").y + s.height,
    );
}

#[test]
fn a_ring_that_does_not_divide_evenly_gives_up_the_remainder() {
    let s = iosite();
    let odd = (0, 0, 6_000_001, 6_000_001);
    let rows = make_rows(
        odd,
        &s,
        &s,
        &s,
        Offsets { west: 30_000, north: 30_000, east: 30_000, south: 30_000 },
        Rotations::default(),
        -1,
        true,
    );
    let north = find(&rows, "IO_NORTH");
    let span = north.x + north.sites * north.pitch;
    assert!(span <= odd.2 - 30_000, "the ring reached past its own offset");
    assert_eq!(north.sites, 2_690);
}

#[test]
fn each_edge_is_offered_the_site_for_its_own_direction() {
    let hor = Site { name: "H".into(), width: 100_000, height: 2_000 };
    let ver = Site { name: "V".into(), width: 2_000, height: 100_000 };
    let cor = Site { name: "C".into(), width: 100_000, height: 100_000 };
    let rows =
        make_rows(DIE, &hor, &ver, &cor, Offsets::default(), Rotations::default(), -1, false);
    assert_eq!(find(&rows, "IO_NORTH").site, "V");
    assert_eq!(find(&rows, "IO_SOUTH").site, "V");
    assert_eq!(find(&rows, "IO_EAST").site, "H");
    assert_eq!(find(&rows, "IO_WEST").site, "H");
    assert_eq!(find(&rows, "IO_CORNER_NORTH_WEST").site, "C");
}

#[test]
fn asymmetric_offsets_inset_each_edge_independently() {
    let s = iosite();
    let rows = make_rows(
        DIE,
        &s,
        &s,
        &s,
        Offsets { west: 10_000, north: 20_000, east: 30_000, south: 40_000 },
        Rotations::default(),
        -1,
        true,
    );
    assert_eq!(find(&rows, "IO_CORNER_SOUTH_WEST").x, 10_000, "west");
    assert_eq!(find(&rows, "IO_CORNER_SOUTH_WEST").y, 40_000, "south");
    assert_eq!(find(&rows, "IO_SOUTH").y, 40_000);
    assert_eq!(find(&rows, "IO_WEST").x, 10_000);
}
