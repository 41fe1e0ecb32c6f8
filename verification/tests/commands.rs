use vyges_pad::along::{has_end, place_along};
use vyges_pad::bump::{array_fits, bumps, Array};
use vyges_pad::clearance::{Blocker, Reason, Shape};
use vyges_pad::command::{
    bump_array, check_bump, check_removal, check_room, choose_master, corner_at, in_the_way,
    inst_list, instances_of, origin_pair, output_path, pad_at, pad_of, pad_row, pads_track,
    pitch_pair, placement_mode, ring_names, ring_request, Verb,
};
use vyges_pad::design::{
    blockers, cell_shapes, connects_to_a_bump, master_size, orient_of, owner, read_row, site,
    Instance, Metal, Obstruction, PadNet,
};
use vyges_pad::geom::Rect;
use vyges_pad::options::{count, parse_i32, parse_opts, ring_index, words, Opts};
use vyges_pad::pads::{gap_fits, room_fits, Pad, Refused, Track};
use vyges_pad::report::{
    def_dir, empty_rows, exit_status, placement_json, placement_notices, report_json, ring_notices,
    writes_ring, Gravity,
};
use vyges_pad::{Edge, Orient, Placement, Row, RowDir, RowGeom};

fn opts(args: &[&str]) -> Opts {
    let mut all = vec!["d.odb".to_string()];
    all.extend(args.iter().map(|a| a.to_string()));
    parse_opts(&all).unwrap()
}

fn row(name: &str, bbox: Rect, orient: Orient) -> RowGeom {
    RowGeom {
        name: name.into(),
        bbox,
        orient,
        origin: (bbox.0, bbox.1),
        spacing: 10,
        site_count: 100,
    }
}

#[test]
fn commands_are_known_by_their_names() {
    assert_eq!(Verb::of("make-io-sites"), Some(Verb::MakeIoSites));
    assert_eq!(Verb::of("place-corners"), Some(Verb::PlaceCorners));
    assert_eq!(Verb::of("place-pad"), Some(Verb::PlacePad));
    assert_eq!(Verb::of("place-pads"), Some(Verb::PlacePads));
    assert_eq!(Verb::of("make-io-bump-array"), Some(Verb::MakeIoBumpArray));
    assert_eq!(Verb::of("remove-io-bump"), Some(Verb::RemoveIoBump));
    assert_eq!(Verb::of("remove-io-bump-array"), Some(Verb::RemoveIoBumpArray));
    assert_eq!(Verb::of("--describe"), Some(Verb::Describe));
    assert_eq!((Verb::of("--help"), Verb::of("-h")), (Some(Verb::Help), Some(Verb::Help)));
    assert_eq!(Verb::of("place"), None);
}

#[test]
fn options_are_read_in_order() {
    let o = opts(&["--json", "--mirror", "--row", "IO_EAST", "-o", "out.json", "--row", "IO_WEST"]);
    assert!(o.mirror && !o.dry_run);
    assert_eq!(o.get("row"), Some("IO_EAST"), "the first one given");
    assert_eq!(o.get("o"), Some("out.json"));
    assert_eq!(o.need("inst"), Err("--inst is required".to_string()));
    let second = ["a.odb", "200"].map(String::from);
    assert_eq!(parse_opts(&second).unwrap_err(), "unexpected argument `200`");
    let dangling = ["a.odb", "--row"].map(String::from);
    assert_eq!(parse_opts(&dangling).unwrap_err(), "--row needs a value");
    let unknown = ["a.odb", "-x"].map(String::from);
    assert_eq!(parse_opts(&unknown).unwrap_err(), "unknown option `-x`");
    assert_eq!(parse_opts(&[]).unwrap_err(), "a path to a .odb is required");
    assert!(opts(&["--dry-run"]).dry_run);
}

#[test]
fn whole_numbers_are_read_as_they_are_written() {
    for v in [0, 7, -7, i32::MAX, i32::MIN] {
        assert_eq!(parse_i32(&v.to_string()), Some(v));
    }
    assert_eq!(parse_i32("+12"), Some(12));
    for bad in ["", "-", "+", " 1", "1 ", "1x", "2147483648", "--1"] {
        assert_eq!(parse_i32(bad), None, "{bad}");
    }
    assert_eq!(words("  a bb\t c\n"), vec!["a", "bb", "c"]);
    assert!(words(" \t").is_empty());
    assert_eq!(count(&opts(&["--rows", "14"]), "rows"), Ok(14));
    assert_eq!(count(&opts(&[]), "rows"), Err("--rows is required".to_string()));
    assert_eq!(count(&opts(&["--rows", "x"]), "rows"), Err("--rows wants a whole number".into()));
    assert_eq!(ring_index(&opts(&[])), Ok(-1));
    assert_eq!(ring_index(&opts(&["--ring-index", "3"])), Ok(3));
    assert!(ring_index(&opts(&["--ring-index", "three"])).is_err());
}

#[test]
fn the_result_goes_over_the_design_unless_told_otherwise() {
    assert_eq!(output_path(&opts(&[])), "d.odb");
    assert_eq!(output_path(&opts(&["--out-odb", "e.odb"])), "e.odb");
}

#[test]
fn a_ring_needs_its_sites_and_its_inset() {
    let given = ["--horizontal-site", "H", "--vertical-site", "V", "--corner-site", "C"];
    assert_eq!(ring_names(&opts(&given)).unwrap_err(), "--offset is required");
    assert_eq!(ring_names(&opts(&given[..4])).unwrap_err(), "--corner-site is required");
    assert_eq!(ring_names(&opts(&given[..2])).unwrap_err(), "--vertical-site is required");
    assert_eq!(ring_names(&opts(&[])).unwrap_err(), "--horizontal-site is required");
    let mut all = given.to_vec();
    all.extend(["--offset", "30"]);
    let names = ring_names(&opts(&all)).unwrap();
    assert_eq!((names.horizontal.as_str(), names.offset.as_str()), ("H", "30"));
}

#[test]
fn a_ring_is_built_from_what_was_asked_for() {
    let s = || site("IOSITE", 2_000, 280_000).unwrap();
    let die = (0, 0, 6_000_000, 6_000_000);
    let o = opts(&["--ring-index", "1", "--rotation-corner", "R90"]);
    let request = ring_request(&o, die, 30_000, s(), s(), s()).unwrap();
    assert!(request.same_site);
    let rows = request.build().unwrap();
    assert_eq!(rows.len(), 8);
    assert_eq!((rows[4].name.as_str(), rows[4].sites), ("IO_NORTH_1", 2_690));
    let names: Vec<&str> = rows.iter().map(|r| r.name.as_str()).collect();
    for (i, n) in names.iter().enumerate() {
        assert!(!names[..i].contains(n));
    }
    let bad = opts(&["--rotation-vertical", "up"]);
    assert_eq!(
        ring_request(&bad, die, 0, s(), s(), s()).unwrap_err(),
        "--rotation-vertical: `up` is not an orientation (R0, R90, MX, MXR90, …)"
    );
    let wide = (0, 0, i32::MAX, i32::MAX);
    let far = ring_request(&o, wide, i32::MIN, s(), s(), s()).unwrap();
    assert!(far.build().is_none(), "outside of machine coordinates");
}

#[test]
fn a_pad_keeps_the_master_it_has() {
    assert_eq!(choose_master("u", Some("M"), false, ""), Ok("M".to_string()));
    assert_eq!(choose_master("u", None, true, "M"), Ok("M".to_string()));
    assert_eq!(choose_master("u", Some("M"), true, "M"), Ok("M".to_string()));
    assert_eq!(
        choose_master("u", None, false, ""),
        Err("cannot create u without --master".to_string())
    );
    assert_eq!(
        choose_master("u", Some("M"), true, "N"),
        Err("master mismatch for u: it is N, not M".to_string())
    );
}

#[test]
fn a_pad_goes_to_the_nearest_site_of_its_row() {
    let r = row("IO_SOUTH", (100, 0, 1_100, 60), Orient::R0);
    let p = pad_at("u", "M", 346, &r, Edge::South, (40, 60), false, (10, 60)).unwrap();
    assert_eq!((p.x, p.y, p.orient), (350, 0, Orient::R0));
    let m = pad_at("u", "M", 346, &r, Edge::South, (40, 60), true, (10, 60)).unwrap();
    assert_eq!((m.x, m.orient), (350, Orient::MY));
    let edge = row("IO_EAST", (i32::MIN, 0, i32::MIN + 10, 1_000), Orient::R0);
    assert!(pad_at("u", "M", 0, &edge, Edge::East, (40, 60), false, (10, 60)).is_none());
}

#[test]
fn a_row_has_to_be_on_the_ring() {
    let r = row("IO_SOUTH", (0, 0, 1_000, 60), Orient::R0);
    assert_eq!(pad_row(Some(r.clone()), "IO_SOUTH").unwrap().1, Edge::South);
    assert_eq!(pad_row(None, "X").unwrap_err(), "no row named `X`");
    let core = row("CORE", (0, 0, 1_000, 60), Orient::R0);
    assert_eq!(pad_row(Some(core.clone()), "CORE").unwrap_err(), "`CORE` is not an IO row");
    assert_eq!(pads_track(Some(r), "IO_SOUTH", (10, 60)).unwrap().site_width, 10);
    assert_eq!(pads_track(None, "X", (1, 1)).unwrap_err(), "no row `X`");
    assert_eq!(
        pads_track(Some(core), "CORE", (1, 1)).unwrap_err(),
        "CORE is not a recognized IO row"
    );
}

#[test]
fn the_mode_decides_how_pads_are_spread() {
    assert_eq!(placement_mode("uniform", true), Ok((None, false)));
    assert_eq!(placement_mode("default", false), Ok((None, false)));
    assert_eq!(placement_mode("linear", false), Ok((Some(0), false)));
    assert_eq!(placement_mode("bump_aligned", false), Ok((None, true)));
    let no = "bump-aligned placement is not implemented";
    assert_eq!(placement_mode("default", true).unwrap_err(), no);
    assert_eq!(placement_mode("bump_aligned", true).unwrap_err(), no);
    assert_eq!(
        placement_mode("placer", false).unwrap_err(),
        "the annealing placer is not implemented"
    );
    assert_eq!(placement_mode("odd", true).unwrap_err(), "`odd` is not a placement mode");
}

#[test]
fn pads_have_to_be_there_and_to_have_a_size() {
    assert_eq!(inst_list(&opts(&["--insts", "a b"])).unwrap(), vec!["a", "b"]);
    assert_eq!(
        inst_list(&opts(&["--insts", "  "])).unwrap_err(),
        "place-pads requires a list of instances"
    );
    assert_eq!(inst_list(&opts(&[])).unwrap_err(), "--insts is required");
    assert_eq!(pad_of("u", "M", 3, 4).unwrap().size, (3, 4));
    assert_eq!(pad_of("u", "", 3, 4).unwrap_err(), "no instance named `u` in this design");
    assert_eq!(
        pad_of("u", "M", 0, 4).unwrap_err(),
        "cannot measure master `M`: no master named `M` in this design"
    );
}

fn track(sites: i32) -> Track {
    let mut r = row("IO_SOUTH", (0, 0, sites * 10, 60), Orient::R0);
    r.site_count = sites;
    Track { row: r, edge: Edge::South, site_width: 10 }
}

fn pad(name: &str, width: i32) -> Pad {
    Pad { name: name.into(), master: "PAD".into(), size: (width, 60) }
}

#[test]
fn pads_that_cannot_fit_are_refused_together() {
    let t = track(30);
    let pads = [pad("a", 200), pad("b", 200)];
    assert!(room_fits(&t, &pads) && gap_fits(&t, &pads, None));
    assert_eq!(
        check_room(&t, &pads).unwrap_err(),
        "the pads total 400 units and IO_SOUTH has room for 300"
    );
    assert_eq!(check_room(&t, &pads[..1]), Ok(()));
}

fn none(_: &str) -> bool {
    false
}

fn zero(_: &str) -> i32 {
    0
}

fn wall(name: &str, bbox: Rect) -> Blocker {
    Blocker { name: name.into(), bbox, outline: vec![], by_box: true, shapes: vec![] }
}

#[test]
fn pads_slide_clear_of_what_stands_there_and_of_each_other() {
    let t = track(100);
    let pads = [pad("a", 100), pad("b", 100), pad("c", 100)];
    let metal: Vec<Vec<Metal>> = vec![vec![], vec![], vec![]];
    let start = vec![wall("w", (150, 0, 480, 60))];
    let out = place_along(&t, &pads, &metal, None, start, &[], &none, &zero).unwrap().unwrap();
    let at: Vec<i32> = out.iter().map(|p| p.x).collect();
    assert_eq!(at, vec![480, 580, 710]);
    for w in out.windows(2) {
        assert!(w[0].x + 100 <= w[1].x, "no two stand on one another");
    }
}

#[test]
fn pads_that_find_no_room_are_refused_by_name() {
    let t = track(100);
    let pads = [pad("a", 100)];
    let stops = [(0, 0, 1_000, 60)];
    let metal: Vec<Vec<Metal>> = vec![vec![]];
    let r = place_along(&t, &pads, &metal, None, vec![], &stops, &none, &zero).unwrap();
    assert!(matches!(r, Err(Refused::OutOfRow { name, .. }) if name == "a"));
    assert!(has_end(&t, (100, 60)));
    let mut far = track(100);
    far.row.bbox = (i32::MAX - 1_000, 0, i32::MAX, 60);
    assert!(!has_end(&far, (100, 60)));
    let none_there = place_along(&far, &pads, &metal, None, vec![], &[], &none, &zero);
    assert!(none_there.is_none());
}

#[test]
fn only_what_bears_on_a_row_is_in_its_way() {
    let mut cover = wall("cover", (9_000, 9_000, 9_100, 9_100));
    cover.by_box = false;
    let all = [wall("near", (0, 0, 10, 10)), wall("far", (5_000, 0, 5_010, 10)), cover];
    let kept: Vec<String> =
        in_the_way(&all, (0, 0, 1_000, 60)).into_iter().map(|b| b.name).collect();
    assert_eq!(kept, vec!["near", "cover"]);
}

#[test]
fn a_corner_on_something_is_told_what_is_in_its_way() {
    let r = row("IO_CORNER_NORTH_WEST", (0, 500, 100, 600), Orient::MX);
    let (p, why) =
        corner_at(&r, "CORNER", (100, 100), &[], &[], &[], &none, &zero).unwrap();
    assert_eq!((p.name.as_str(), p.x, p.y), ("IO_CORNER_NORTH_WEST_INST", 0, 500));
    assert_eq!(why, None);
    let fixed = [wall("w", (50, 550, 60, 560))];
    let (_, why) =
        corner_at(&r, "CORNER", (100, 100), &[], &fixed, &[], &none, &zero).unwrap();
    assert_eq!(why.unwrap().reason, Reason::Instance("w".into()));
    let (_, why) =
        corner_at(&r, "CORNER", (100, 100), &[], &[], &[(99, 599, 200, 700)], &none, &zero).unwrap();
    let why = why.unwrap();
    assert_eq!((why.reason, why.overlap), (Reason::Blockage, (99, 599, 100, 600)));
    let metal = [("m1".to_string(), (0, 0, 10, 10))];
    let mut bump = wall("b", (0, 0, 0, 0));
    bump.by_box = false;
    bump.shapes = vec![Shape { layer: "m1".into(), rect: (12, 595, 20, 605), net: None }];
    let near = [bump];
    let (_, clear) =
        corner_at(&r, "CORNER", (100, 100), &metal, &near, &[], &none, &zero).unwrap();
    assert_eq!(clear, None);
    let (_, close) =
        corner_at(&r, "CORNER", (100, 100), &metal, &near, &[], &none, &|_: &str| 5).unwrap();
    assert_eq!(
        close.unwrap().reason,
        Reason::Layer { blocker: "b".into(), layer: "m1".into() }
    );
    let edge = row("IO_CORNER_NORTH_EAST", (i32::MAX, 0, i32::MAX, 0), Orient::R0);
    assert!(corner_at(&edge, "C", (100, 100), &[], &[], &[], &none, &zero).is_none());
}

#[test]
fn a_bump_array_is_checked_before_it_is_made() {
    assert_eq!(check_bump("M", "COVER BUMP"), Ok(()));
    assert_eq!(check_bump("M", "").unwrap_err(), "no master named `M` in this design");
    assert_eq!(check_bump("M", "PAD").unwrap_err(), "M is `PAD`, not a COVER BUMP");
    assert_eq!(origin_pair(&[1, 2]), Ok((1, 2)));
    assert_eq!(origin_pair(&[1]).unwrap_err(), "--origin must be specified as `x y`");
    assert_eq!(pitch_pair(&[7]), Ok((7, 7)));
    assert_eq!(pitch_pair(&[7, 8]), Ok((7, 8)));
    let wrong = "--pitch must be specified as `deltax deltay` or `delta`";
    assert_eq!(pitch_pair(&[]).unwrap_err(), wrong);
    let o = opts(&["--rows", "2", "--columns", "3", "--prefix", "P_"]);
    let a = bump_array(&o, "M", (10, 20), (100, 200)).unwrap();
    assert!(array_fits(&a));
    let made = bumps(&a);
    assert_eq!((made.len(), made[5].name.as_str()), (6, "P_2_1"));
    assert_eq!((made[5].x, made[5].y), (210, 220));
    let plain = opts(&["--rows", "1", "--columns", "1"]);
    assert_eq!(bumps(&bump_array(&plain, "M", (0, 0), (1, 1)).unwrap())[0].name, "BUMP_0_0");
    assert_eq!(
        bump_array(&opts(&["--rows", "2"]), "M", (0, 0), (1, 1)).unwrap_err(),
        "--columns is required"
    );
    let far = Array { origin: (i32::MAX, 0), ..a.clone() };
    assert!(!array_fits(&far));
    let down = Array { origin: (i32::MIN, 0), pitch: (-1, 0), ..a };
    assert!(!array_fits(&down));
}

#[test]
fn bumps_of_one_array_have_names_of_their_own() {
    let a = Array {
        master: "M".into(),
        prefix: "B1_".into(),
        origin: (0, 0),
        rows: 12,
        columns: 12,
        pitch: (1, 1),
    };
    let mut names: Vec<String> = bumps(&a).into_iter().map(|p| p.name).collect();
    names.sort_unstable();
    names.dedup();
    assert_eq!(names.len(), 144);
}

#[test]
fn only_bumps_are_removed() {
    assert_eq!(check_removal("u", "M", "COVER_BUMP"), Ok(()));
    assert_eq!(check_removal("u", "", "").unwrap_err(), "no instance named `u` in this design");
    assert_eq!(check_removal("u", "M", "PAD").unwrap_err(), "u is a `PAD` cell, not a bump");
    let all = [("a", "M"), ("b", "N"), ("c", "M")].map(|(i, m)| (i.to_string(), m.to_string()));
    assert_eq!(instances_of(&all, "M"), vec!["a", "c"]);
}

#[test]
fn sites_masters_and_rows_are_read_or_missed() {
    assert_eq!(site("S", 2, 3).unwrap().pitch(), 2);
    assert_eq!(site("S", 0, 3).unwrap_err(), "no site named `S` in this design");
    assert_eq!(master_size("M", 2, 3), Ok((2, 3)));
    assert_eq!(master_size("M", 2, -1).unwrap_err(), "no master named `M` in this design");
    assert_eq!((orient_of("MXR90"), orient_of("FN")), (Orient::MXR90, Orient::R0));
    let r = read_row("IO_WEST", (1, 2, 3, 4), "R90", (5, 6), 7, 8).unwrap();
    assert_eq!((r.orient, r.origin, r.spacing, r.site_count), (Orient::R90, (5, 6), 7, 8));
    assert!(read_row("IO_WEST", (1, 2, 3, 4), "R90", (5, 6), 0, 8).is_none());
    assert!(read_row("IO_WEST", (1, 2, 3, 4), "R90", (5, 6), 7, 0).is_none());
}

#[test]
fn a_cells_metal_is_moved_with_it() {
    let metal = [("m1".to_string(), (0, 0, 10, 40))];
    let at = cell_shapes(&metal, (100, 40), Orient::MY, (1_000, 2_000));
    assert_eq!((at[0].layer.as_str(), at[0].rect), ("m1", (1_090, 2_000, 1_100, 2_040)));
    assert!(cell_shapes(&metal, (0, 40), Orient::R0, (0, 0)).is_empty(), "no size, no shapes");
}

fn inst(name: &str, status: &str, class: &str) -> Instance {
    Instance {
        name: name.into(),
        status: status.into(),
        bbox: Some((0, 0, 10, 10)),
        class: class.into(),
        orient: "R0".into(),
        boxes: vec![("ov".into(), (0, 0, 5, 10)), ("m1".into(), (0, 0, 2, 2))],
        size: (10, 10),
    }
}

#[test]
fn only_cells_committed_to_their_places_block() {
    let mut nowhere = inst("nowhere", "FIRM", "PAD");
    nowhere.bbox = None;
    let insts = [
        inst("pad", "FIRM", "PAD"),
        inst("placed", "PLACED", "PAD"),
        inst("bump", "COVER", "COVER BUMP"),
        inst("self", "LOCKED", "PAD"),
        nowhere,
    ];
    let stops = [Obstruction { number: 7, layer: "m7".into(), rect: (1, 2, 3, 4) }];
    let out = blockers(&insts, &stops, "self", &|l: &str| l == "ov");
    let names: Vec<&str> = out.iter().map(|b| b.name.as_str()).collect();
    assert_eq!(names, vec!["pad", "bump", "obstruction@7"]);
    assert!(out[0].by_box && out[0].shapes.is_empty());
    assert_eq!(out[0].outline, vec![(0, 0, 5, 10)]);
    assert!(!out[1].by_box && out[1].shapes.len() == 2);
    assert!(!out[2].by_box && out[2].outline.is_empty());
    assert_eq!((out[2].shapes[0].layer.as_str(), out[2].shapes[0].rect), ("m7", (1, 2, 3, 4)));
}

#[test]
fn a_pad_connects_to_a_bump_over_a_signal() {
    let net = |name: &str, sig: &str, terms: &[&str]| PadNet {
        net: name.into(),
        sig_type: sig.into(),
        terms: terms.iter().map(|t| t.to_string()).collect(),
    };
    let is_bump = |i: &str| i == "top/bump";
    assert!(connects_to_a_bump(&[net("n", "SIGNAL", &["x/A", "top/bump/PAD"])], &is_bump));
    assert!(!connects_to_a_bump(&[net("n", "POWER", &["top/bump/PAD"])], &is_bump));
    assert!(!connects_to_a_bump(&[net("", "SIGNAL", &["top/bump/PAD"])], &is_bump));
    assert!(!connects_to_a_bump(&[net("n", "SIGNAL", &["top", "x/PAD"])], &is_bump));
    assert_eq!(owner("a/b/c"), Some("a/b".to_string()));
    assert_eq!(owner("abc"), None);
}

fn ring_row(name: &str, sites: i32) -> Row {
    Row {
        name: name.into(),
        site: "S".into(),
        x: 1,
        y: -2,
        orient: Orient::MX,
        dir: RowDir::Vertical,
        sites,
        pitch: 10,
    }
}

#[test]
fn a_ring_report_names_every_row() {
    let rows = [ring_row("IO_EAST", 5), ring_row("IO_WEST", 0)];
    let empty = empty_rows(&rows);
    assert_eq!(empty.len(), 1);
    assert_eq!(
        report_json(&rows[..1], &[], 1000),
        "{\n  \"tool\": \"vyges-pad\",\n  \"status\": \"ok\",\n  \"dbu_per_micron\": 1000,\n  \
         \"rows_total\": 1,\n  \"rows\": [\n    {\"name\": \"IO_EAST\", \"site\": \"S\", \"x\": 1, \
         \"y\": -2, \"orient\": \"MX\", \"direction\": \"VERTICAL\", \"sites\": 5, \"pitch\": 10}\n  \
         ]\n}"
    );
    let notices = ring_notices(&rows, &empty);
    assert_eq!(notices.len(), 2);
    assert_eq!(notices[0].message, "row IO_WEST has no room for a single site");
    assert_eq!((notices[0].code.as_str(), notices[0].gravity), ("PAD-ROW-EMPTY", Gravity::Error));
    assert_eq!(notices[0].objects, vec!["row:IO_WEST"]);
    assert_eq!(notices[1].message, "IO ring: 2 row(s), 5 site(s)");
    assert_eq!(notices[1].gravity, Gravity::Error);
    assert_eq!(ring_notices(&rows[..1], &[])[0].gravity, Gravity::Info);
    assert_eq!((def_dir(RowDir::Horizontal), exit_status(true), exit_status(false)), ("HORIZONTAL", 1, 0));
}

#[test]
fn a_placement_report_names_what_was_placed_and_what_was_not() {
    let p = Placement {
        name: "u".into(),
        master: "M".into(),
        x: 3,
        y: 4,
        orient: Orient::R90,
    };
    let skipped = ["v (Blockage)".to_string(), "w".to_string()];
    assert_eq!(
        placement_json("corners", &[p.clone()], &skipped),
        "{\n  \"tool\": \"vyges-pad\",\n  \"command\": \"corners\",\n  \"status\": \"ok\",\n  \
         \"placed\": 1,\n  \"skipped\": [\"v (Blockage)\", \"w\"],\n  \"placements\": [\n    \
         {\"inst\": \"u\", \"master\": \"M\", \"x\": 3, \"y\": 4, \"orient\": \"R90\"}\n  ]\n}"
    );
    assert!(placement_json("pads", &[], &[]).contains("\"status\": \"refused\""));
    let notices = placement_notices("corners", &[p], &skipped);
    assert_eq!(notices[0].message, "skipping v (Blockage)");
    assert_eq!(notices[0].objects, vec!["inst:v (Blockage)"]);
    assert_eq!(notices[2].message, "corners: placed 1, skipped 2");
    assert_eq!((notices[2].code.as_str(), notices[2].gravity), ("PAD-PLACED", Gravity::Info));
}

#[test]
fn a_ring_is_written_unless_it_is_a_dry_run_or_a_row_is_empty() {
    let rows = [ring_row("IO_WEST", 0)];
    assert!(writes_ring(false, &[]));
    assert!(!writes_ring(true, &[]));
    assert!(!writes_ring(false, &empty_rows(&rows)));
    assert!(!writes_ring(true, &empty_rows(&rows)));
    assert!(writes_ring(false, &empty_rows(&[ring_row("IO_EAST", 3)])));
}
