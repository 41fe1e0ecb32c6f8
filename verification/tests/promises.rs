use vyges_pad::abut::{all_touching, connect_by_abutment, touches, PadInst, Terminal};
use vyges_pad::assign::{top_shape, BumpTerm};
use vyges_pad::bond::{bond_shape, is_bond_master, matching};
use vyges_pad::bump::is_bump_master;
use vyges_pad::clearance::{intersects, refuse, transform, Blocker, Reason};
use vyges_pad::fill::{fill_row, gaps, Filler};
use vyges_pad::geom::Rect;
use vyges_pad::pads::{
    alignment_group, pad_bump_distance, place_one, target_spacing, travel, Bump, BumpPad, Pad,
    Refused, Track,
};
use vyges_pad::place::nearest_site;
use vyges_pad::single::Single;
use vyges_pad::sort::arrange;
use vyges_pad::spread::{forces, nearest_legal, step_move, Anchor};
use vyges_pad::{oriented_size, place_in_row, row_name, Edge, Orient, RowGeom};

#[test]
fn orientations_are_told_apart_by_their_names() {
    for a in Orient::ALL {
        assert_eq!(Orient::parse(a.name()), Some(a));
        for b in Orient::ALL {
            assert_eq!(a.name() == b.name(), a == b);
            assert_eq!(a.def() == b.def(), a == b);
            let (x, y) = a.apply(3, 5);
            assert_eq!(a.concat(b).apply(3, 5), b.apply(x, y));
        }
    }
    assert_eq!(Orient::parse("r0"), None);
    assert_eq!(Orient::parse(""), None);
}

#[test]
fn a_turned_cell_is_as_large_as_before() {
    for o in Orient::ALL {
        let (w, h) = oriented_size(30, 7, o);
        let (x, y) = o.apply(30, 7);
        assert_eq!((w, h), (x.abs(), y.abs()));
        let r = transform((2, 3, 9, 5), (30, 7), o, (100, 200));
        assert!(100 <= r.0 && r.2 <= 100 + w && 200 <= r.1 && r.3 <= 200 + h);
    }
}

#[test]
fn names_tell_rings_apart() {
    assert_ne!(row_name("IO_NORTH", 1), row_name("IO_NORTH", 11));
    assert_ne!(row_name("IO_NORTH", 1), row_name("IO_NORTH", -1));
    assert_eq!(row_name("IO_NORTH", -9), "IO_NORTH");
}

#[test]
fn the_nearest_site_is_nearer_than_any_other() {
    for d in -40i128..140 {
        let k = nearest_site(d, 10, 10);
        assert!((0..=10).contains(&k));
        for other in 0..=10 {
            let (a, b) = ((d - 10 * k as i128).abs(), (d - 10 * other as i128).abs());
            assert!(a <= b, "{d}");
        }
    }
}

fn track() -> Track {
    Track {
        row: RowGeom {
            name: "IO_SOUTH".into(),
            bbox: (0, 0, 1_000, 60),
            orient: Orient::R0,
            origin: (0, 0),
            spacing: 10,
            site_count: 100,
        },
        edge: Edge::South,
        site_width: 10,
    }
}

#[test]
fn a_sites_position_snaps_back_to_it() {
    let t = track();
    for i in 0..=100 {
        assert_eq!(t.snap_to_site(t.index_to_pos(i)), i);
    }
}

#[test]
fn a_gap_is_whole_sites() {
    let t = track();
    for n in 1..8 {
        let pads: Vec<Pad> = (0..n)
            .map(|i| Pad { name: format!("p{i}"), master: "M".into(), size: (37, 60) })
            .collect();
        assert_eq!(target_spacing(&t, &pads, None) % 10, 0);
    }
}

#[test]
fn one_pad_is_placed_refused_or_left_on_what_it_hits() {
    let t = track();
    let pad = Pad { name: "u".into(), master: "M".into(), size: (50, 60) };
    let block = [Blocker {
        name: "w".into(),
        bbox: (100, 0, 130, 60),
        outline: vec![],
        by_box: true,
        shapes: vec![],
    }];
    let mut hit =
        |n: &str, b: Rect, _: Orient| refuse(n, b, &[], &[], &block, &[], &|_: &str| 0);
    let slid = place_one(&t, 9, &pad, Orient::R0, false, true, &mut hit).unwrap();
    assert_eq!(slid.x, 130);
    match place_one(&t, 9, &pad, Orient::R0, false, false, &mut hit) {
        Err(Refused::Blocked { name, at, why }) => {
            assert_eq!((name.as_str(), at), ("u", (90, 0, 140, 60)));
            assert_eq!(why.reason, Reason::Instance("w".into()));
            assert_eq!((why.blocker, why.overlap), ((100, 0, 130, 60), (100, 0, 130, 60)));
        }
        other => panic!("expected Blocked, got {other:?}"),
    }
    let over = place_one(&t, 9, &pad, Orient::R0, true, false, &mut hit).unwrap();
    assert_eq!(over.x, 90);
    let off = place_one(&t, 99, &pad, Orient::R0, false, true, &mut hit);
    assert_eq!(off, Err(Refused::OutOfRow { name: "u".into(), at: (990, 0, 1_040, 60) }));
}

#[test]
fn pads_face_outwards_on_every_edge() {
    let row = RowGeom { orient: Orient::MX, ..track().row };
    let (x, y, o) = place_in_row(3, &row, Edge::North, 20, 40, Orient::MY);
    assert_eq!((x, y, o), (30, 20, Orient::R180));
}

#[test]
fn a_conflict_is_told_with_the_whole_blocker_and_the_part_hit() {
    let b = [Blocker {
        name: "w".into(),
        bbox: (0, 0, 100, 100),
        outline: vec![],
        by_box: true,
        shapes: vec![],
    }];
    let r = refuse("u", (50, 60, 300, 300), &[], &[], &b, &[], &|_: &str| 0).unwrap();
    assert_eq!((r.blocker, r.overlap), ((0, 0, 100, 100), (50, 60, 100, 100)));
    let g = refuse("u", (50, 60, 300, 300), &[], &[], &b, &[(0, 0, 60, 400)], &|_: &str| 0).unwrap();
    assert_eq!((g.reason, g.overlap), (Reason::Blockage, (50, 60, 60, 300)), "blockages first");
}

#[test]
fn meeting_asks_less_than_overlapping() {
    let a = (0, 0, 10, 10);
    for b in [(10, 0, 20, 10), (5, 5, 6, 6), (11, 0, 20, 10), (0, 0, 10, 10)] {
        assert!(!intersects(a, b) || touches(a, b));
    }
    assert!(touches(a, (10, 10, 20, 20)) && !intersects(a, (10, 10, 20, 20)));
}

#[test]
fn every_terminal_that_touches_another_gets_a_net() {
    let term = |r: Rect| Terminal {
        name: "P".into(),
        shapes: vec![(1, r)],
        net: None,
        supply: false,
    };
    let insts: Vec<PadInst> = (0..6)
        .map(|i| {
            let r = (i * 100, 0, i * 100 + 100, 50);
            PadInst { name: format!("u{i}"), bbox: r, terms: vec![term(r)] }
        })
        .collect();
    assert_eq!(all_touching(&insts).len(), 5);
    let plan = connect_by_abutment(&insts, &|_: &str| 0).unwrap();
    assert_eq!(plan.create, vec!["u0.P_RING"]);
    assert_eq!(plan.connect.len(), 6);
    assert!(plan.connect.iter().all(|(_, n)| n == "u0.P_RING"));
}

#[test]
fn terminals_of_a_real_net_are_left_on_it() {
    let term = |net: Option<&str>, r: Rect| Terminal {
        name: "P".into(),
        shapes: vec![(1, r)],
        net: net.map(|n| n.to_string()),
        supply: true,
    };
    let inst = |i: i32, net: Option<&str>| {
        let r = (i * 100, 0, i * 100 + 100, 50);
        PadInst { name: format!("u{i}"), bbox: r, terms: vec![term(net, r)] }
    };
    let insts = [inst(0, Some("VDD")), inst(1, None), inst(2, Some("stray")), inst(3, None)];
    let plan =
        connect_by_abutment(&insts, &|n: &str| if n == "stray" { 1 } else { 2 }).unwrap();
    assert_eq!(plan.destroy, vec!["stray"]);
    assert!(plan.connect.iter().all(|(t, n)| *t != (0, 0) && n == "VDD"));
    assert_eq!(plan.connect.len(), 3);
    let twice = [inst(0, Some("VDD")), inst(1, None), inst(1, None)];
    let again = connect_by_abutment(&twice, &|_: &str| 2).unwrap();
    assert_eq!(again.connect.len(), 2, "an instance listed twice joins as one listed once does");
    assert!(again.connect.iter().all(|(_, n)| n == "VDD"));
    assert_eq!(twice[0].clone(), twice[0]);
    assert_eq!(plan.clone(), plan);
}

#[test]
fn gaps_are_what_the_pads_leave() {
    let taken = [(30, 50), (10, 20), (45, 60), (90, 120), (-10, 2)];
    let left = gaps((0, 100), &taken);
    assert!(left.iter().all(|g| g.0 < g.1));
    for x in 0..100 {
        let free = !taken.iter().any(|t| t.0 <= x && x < t.1);
        assert_eq!(left.iter().any(|g| g.0 <= x && x < g.1), free, "{x}");
    }
}

#[test]
fn a_filled_row_has_no_hole() {
    let filler = |m: &str, w: i32| Filler { master: m.into(), width: w, overlapping: false };
    let list = [filler("S", 10), filler("L", 70), filler("M", 30)];
    let out =
        fill_row("IO_NORTH", (0, 500), &[(200, 230)], 0, 10, &|p: i32| p / 10, &list).unwrap();
    let width = |m: &str| list.iter().find(|f| f.master == m).unwrap().width;
    for x in (0..200).chain(230..500) {
        assert_eq!(out.iter().filter(|f| f.at <= x && x < f.at + width(&f.master)).count(), 1, "{x}");
    }
    let mut names: Vec<&str> = out.iter().map(|f| f.name.as_str()).collect();
    names.sort_unstable();
    names.dedup();
    assert_eq!(names.len(), out.len());
    assert!(fill_row("R", (0, 500), &[], 0, 0, &|p: i32| p, &list).unwrap().is_empty());
}

#[test]
fn one_shape_is_chosen_whatever_order_they_come_in() {
    let shapes = [(40, 40, 60, 60), (45, 45, 60, 60), (0, 0, 10, 10)];
    let term = |list: &[Rect]| BumpTerm {
        name: "PAD".into(),
        net: None,
        shapes: list.iter().map(|r| ("m".to_string(), 3, *r)).collect(),
    };
    let a = top_shape(&[term(&shapes)], (0, 0, 100, 100));
    let mut turned = shapes;
    turned.reverse();
    assert_eq!(a, top_shape(&[term(&turned)], (0, 0, 100, 100)));
    assert_eq!(a.unwrap().1, (45, 45, 60, 60));
}

#[test]
fn no_bond_master_is_a_bump() {
    for class in ["COVER", "COVER BUMP", "COVER_BUMP", " COVER ", "PAD", ""] {
        assert!(!(is_bond_master(class) && is_bump_master(class)), "{class}");
    }
    assert!(bond_shape(&[]).is_none());
}

#[test]
fn every_name_matches_itself() {
    let names: Vec<String> =
        ["a", "req[3]", "x_y.z", "top/u0"].iter().map(|s| s.to_string()).collect();
    for n in &names {
        assert_eq!(matching(&names, &[n.clone()]), vec![n]);
    }
    assert_eq!(matching(&names, &["?".to_string()]), vec!["a"]);
    assert!(matching(&names, &[]).is_empty());
}

#[test]
fn a_run_of_pads_shares_a_bump_column() {
    let bump = |c: (i32, i32)| Bump { terminal: "t".into(), centre: c, id: 0 };
    let pads: Vec<BumpPad> = [(5, 100), (5, 300), (9, 100)]
        .iter()
        .map(|&c| BumpPad { name: "u".into(), id: 1, width: 10, bumps: vec![bump(c)] })
        .collect();
    let g = alignment_group(&pads, 0, 0, (0, 0), true);
    assert!(g.len() == 2 && g.iter().all(|(_, b)| b.centre.0 == 5));
    assert_eq!(pad_bump_distance(0, 10, (8, 4), (0, 0), true), 25);
    assert_eq!(pad_bump_distance(0, 10, (8, 4), (0, 0), false), 65);
}

#[test]
fn travel_never_goes_back_and_never_beyond_its_budget() {
    for want in [-50, 0, 10, 40, 400] {
        let (at, left) = travel(10, want, 100);
        assert!(at >= 10 && (0..=100).contains(&left));
        assert_eq!(at - 10, 100 - left);
    }
}

fn single(v: f32) -> Single {
    Single::from_bits(v.to_bits())
}

#[test]
fn moves_are_whole_sites() {
    for (delta, before, after) in [(5, 0, 0), (-5, 0, 0), (0, 30, 0), (0, 0, 7), (900, 20, 3)] {
        let m = step_move(delta, single(0.1), before, after, single(0.5), single(0.2), 7);
        assert_eq!(m % 7, 0);
        assert!(m.abs() >= 7);
    }
}

#[test]
fn repulsion_never_changes() {
    for i in [-7, 0, 1, 999, 5_000, i32::MAX] {
        assert_eq!(f32::from_bits(forces(i).1.to_bits()), 0.5);
    }
}

#[test]
fn a_pad_steps_right_beside_what_it_hit() {
    for target in [0, 120, 150, 180, 300] {
        let p = nearest_legal(target, Some((100, 200)), 25, (0, 400));
        assert!(p + 25 == 100 || p - 25 == 200);
    }
    let mut a = Anchor::at(10, 5);
    a.set_location(20);
    assert_eq!((a.min, a.centre, a.max, a.width), (20, 22, 25, 5));
}

#[test]
fn sorting_keeps_equals_in_their_order() {
    let keys = [3, 1, 2, 1, 3, 0];
    let list: Vec<usize> = (0..6).collect();
    let out = arrange(&list, &|a: usize, b: usize| keys[a] < keys[b]);
    assert_eq!(out, vec![5, 1, 3, 2, 0, 4]);
}
