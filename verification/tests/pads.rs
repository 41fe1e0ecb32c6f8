use vyges_pad::clearance::{Reason, Refusal};
use vyges_pad::geom::Rect;
use vyges_pad::pads::{
    alignment_group, fits, group_positions, keep_flip, pad_width, place_one, place_uniform,
    target_spacing, travel, Bump, BumpPad, Pad, Refused, Track,
};
use vyges_pad::{Edge, Orient, Placement, RowGeom};

fn track(edge: Edge, bbox: Rect, spacing: i32, sites: i32) -> Track {
    Track {
        row: RowGeom {
            name: "IO_TEST".into(),
            bbox,
            orient: Orient::R0,
            origin: (bbox.0, bbox.1),
            spacing,
            site_count: sites,
        },
        edge,
        site_width: spacing,
    }
}

fn pad(name: &str, w: i32, h: i32) -> Pad {
    Pad { name: name.into(), master: "PAD".into(), size: (w, h) }
}

fn clear(_: &str, _: Rect, _: Orient) -> Option<Refusal> {
    None
}

#[test]
fn a_row_measures_along_its_own_length() {
    let h = track(Edge::South, (0, 0, 1000, 60), 10, 100);
    assert_eq!((h.start(), h.end(), h.width()), (0, 1000, 1000));
    let v = track(Edge::West, (0, 0, 60, 1000), 10, 100);
    assert_eq!((v.start(), v.end(), v.width()), (0, 1000, 1000));
}

#[test]
fn snapping_rounds_to_the_nearest_site_and_stays_in_the_row() {
    let t = track(Edge::South, (0, 0, 1000, 60), 10, 100);
    assert_eq!(t.snap_to_site(0), 0);
    assert_eq!(t.snap_to_site(14), 1, "rounds down");
    assert_eq!(t.snap_to_site(15), 2, "half rounds away from zero");
    assert_eq!(t.snap_to_site(16), 2, "rounds up");
    assert_eq!(t.snap_to_site(-500), 0);
    assert_eq!(t.snap_to_site(99_999), 100);
}

#[test]
fn spacing_is_the_leftover_split_into_one_more_gap_than_pads() {
    let t = track(Edge::South, (0, 0, 1000, 60), 10, 100);
    let pads = vec![pad("a", 100, 60), pad("b", 100, 60), pad("c", 100, 60)];
    assert_eq!(target_spacing(&t, &pads, None), 170);
    assert_eq!(target_spacing(&t, &pads, Some(45)), 40);
    assert_eq!(target_spacing(&t, &pads, Some(10_000)), 170);
}

#[test]
fn pads_are_spread_with_a_gap_before_the_first_and_after_the_last() {
    let t = track(Edge::South, (0, 0, 1000, 60), 10, 100);
    let pads = vec![pad("a", 100, 60), pad("b", 100, 60), pad("c", 100, 60)];
    let out = place_uniform(&t, &pads, None, &mut clear, &mut |_| {}).unwrap();
    assert_eq!(out.iter().map(|p| p.x).collect::<Vec<_>>(), vec![170, 440, 710]);
    assert!(out.last().unwrap().x + 100 < t.end());
}

#[test]
fn a_pad_slides_clear_of_an_obstruction() {
    let t = track(Edge::South, (0, 0, 1000, 60), 10, 100);
    let pads = vec![pad("a", 100, 60)];
    let mut hit = |_: &str, b: Rect, _: Orient| {
        let block = (200, 0, 300, 60);
        if b.0 < block.2 && block.0 < b.2 {
            Some(Refusal {
                reason: Reason::Blockage,
                blocker: block,
                overlap: (b.0.max(block.0), 0, b.2.min(block.2), 60),
            })
        } else {
            None
        }
    };
    let out = place_uniform(&t, &pads, Some(150), &mut hit, &mut |_| {}).unwrap();
    assert!(out[0].x >= 300, "slid past the obstruction, got {}", out[0].x);
}

#[test]
fn a_shift_does_not_drag_the_following_pads_along() {
    let t = track(Edge::South, (0, 0, 1000, 60), 10, 100);
    let pads = vec![pad("a", 100, 60), pad("b", 100, 60)];
    let ideal = place_uniform(&t, &pads, None, &mut clear, &mut |_| {}).unwrap();
    let mut hit = |_: &str, b: Rect, _: Orient| {
        let block = (250, 0, 400, 60);
        if b.0 < block.2 && block.0 < b.2 {
            Some(Refusal {
                reason: Reason::Blockage,
                blocker: block,
                overlap: (b.0.max(block.0), 0, b.2.min(block.2), 60),
            })
        } else {
            None
        }
    };
    let shifted = place_uniform(&t, &pads, None, &mut hit, &mut |_| {}).unwrap();
    assert_ne!(shifted[0].x, ideal[0].x, "the first pad had to move");
    assert_eq!(shifted[1].x, ideal[1].x, "the second one did not");
}

#[test]
fn running_off_the_end_of_the_row_is_refused_by_name() {
    let t = track(Edge::South, (0, 0, 300, 60), 10, 30);
    let pads = vec![pad("wide", 400, 60)];
    match place_uniform(&t, &pads, None, &mut clear, &mut |_| {}) {
        Err(Refused::OutOfRow { name, .. }) => assert_eq!(name, "wide"),
        other => panic!("expected OutOfRow, got {other:?}"),
    }
}

#[test]
fn a_request_that_cannot_fit_is_rejected_before_anything_moves() {
    let t = track(Edge::South, (0, 0, 300, 60), 10, 30);
    let pads = vec![pad("a", 200, 60), pad("b", 200, 60)];
    assert_eq!(fits(&t, &pads), Err((400, 300)));
    assert_eq!(fits(&t, &pads[..1]), Ok(()));
}

#[test]
fn a_side_row_measures_the_pad_the_other_way_round() {
    let mut t = track(Edge::West, (0, 0, 60, 1000), 10, 100);
    t.row.orient = Orient::R0;
    assert_eq!(pad_width(&t, (100, 60)), 60, "vertical row consumes the height");
    let h = track(Edge::South, (0, 0, 1000, 60), 10, 100);
    assert_eq!(pad_width(&h, (100, 60)), 100, "horizontal row consumes the width");
}

fn bump(name: &str, c: (i32, i32), id: u64) -> Bump {
    Bump { terminal: name.into(), centre: c, id }
}

fn bump_pad(name: &str, id: u64, width: i32, bumps: Vec<Bump>) -> BumpPad {
    BumpPad { name: name.into(), id, width, bumps }
}

#[test]
fn a_pad_takes_its_nearest_bump() {
    let pads =
        vec![bump_pad("a", 1, 100, vec![bump("far", (900, 500), 1), bump("near", (100, 500), 2)])];
    assert_eq!(alignment_group(&pads, 0, 0, (0, 0), true)[0].1.terminal, "near");
}

#[test]
fn a_run_stops_at_a_different_bump_column() {
    let pads = vec![
        bump_pad("a", 1, 100, vec![bump("x", (100, 500), 1)]),
        bump_pad("b", 2, 100, vec![bump("x2", (100, 900), 2)]),
        bump_pad("c", 3, 100, vec![bump("y", (700, 500), 3)]),
    ];
    assert_eq!(alignment_group(&pads, 0, 0, (0, 0), true).len(), 2);
}

#[test]
fn a_pad_with_no_bump_ends_the_run() {
    let pads = vec![
        bump_pad("a", 1, 100, vec![bump("x", (100, 500), 1)]),
        bump_pad("b", 2, 100, vec![]),
        bump_pad("c", 3, 100, vec![bump("x", (100, 500), 2)]),
    ];
    assert_eq!(alignment_group(&pads, 0, 0, (0, 0), true).len(), 1);
    assert!(alignment_group(&pads, 1, 0, (0, 0), true).is_empty(), "and cannot start one");
}

#[test]
fn a_group_is_centred_on_its_bump_column() {
    let pads = vec![
        bump_pad("a", 1, 100, vec![bump("x", (1000, 500), 1)]),
        bump_pad("b", 2, 100, vec![bump("x", (1000, 500), 2)]),
    ];
    let g = alignment_group(&pads, 0, 0, (0, 0), true);
    assert_eq!(group_positions(&pads, &g, true), vec![(0, 900), (1, 1000)]);
}

#[test]
fn positions_within_a_group_follow_instance_id_order() {
    let pads = vec![
        bump_pad("a", 9, 100, vec![bump("x", (1000, 500), 1)]),
        bump_pad("b", 2, 100, vec![bump("x", (1000, 500), 2)]),
    ];
    let g = alignment_group(&pads, 0, 0, (0, 0), true);
    assert_eq!(group_positions(&pads, &g, true), vec![(1, 900), (0, 1000)], "lower id first");
}

#[test]
fn a_pad_never_moves_backwards_and_the_budget_is_spent() {
    assert_eq!(travel(500, 900, 1000), (900, 600), "moved 400, 600 left");
    assert_eq!(travel(500, 300, 1000), (500, 1000), "cannot go back, nothing spent");
    assert_eq!(travel(500, 5000, 200), (700, 0), "capped by the budget");
}

#[test]
fn a_flip_is_kept_unless_it_costs_more() {
    assert!(keep_flip(100, 90, 2), "shorter, keep");
    assert!(keep_flip(100, 100, 2), "an exact tie keeps the flip");
    assert!(!keep_flip(100, 110, 2), "longer, undo");
    assert!(!keep_flip(100, 10, 1), "one connection is never flipped");
}

#[test]
fn each_pad_is_handed_over_once_it_is_settled() {
    let t = track(Edge::South, (0, 0, 1000, 60), 10, 100);
    let pads = vec![pad("a", 100, 60), pad("b", 100, 60), pad("c", 100, 60)];
    let mut seen = Vec::new();
    let out = place_uniform(&t, &pads, None, &mut clear, &mut |p: &Placement| {
        seen.push((p.name.clone(), p.x))
    })
    .unwrap();
    assert_eq!(seen.len(), 3);
    let landed: Vec<(String, i32)> = out.iter().map(|p| (p.name.clone(), p.x)).collect();
    assert_eq!(seen, landed);
    assert_eq!(out.iter().map(|p| p.x).collect::<Vec<_>>(), vec![170, 440, 710]);
}

#[test]
fn the_pads_before_a_refused_one_are_handed_over() {
    let t = track(Edge::South, (0, 0, 1000, 60), 10, 100);
    let pads = vec![pad("a", 100, 60), pad("b", 100, 60), pad("c", 100, 60)];
    let mut full = |name: &str, b: Rect, _: Orient| {
        if name == "c" {
            Some(Refusal { reason: Reason::Blockage, blocker: b, overlap: b })
        } else {
            None
        }
    };
    let mut seen = Vec::new();
    let r = place_uniform(&t, &pads, None, &mut full, &mut |p: &Placement| seen.push(p.name.clone()));
    assert!(r.is_err());
    assert_eq!(seen, vec!["a".to_string(), "b".to_string()]);
}

#[test]
fn a_test_that_changes_its_mind_still_leaves_the_pad_where_it_accepted_it() {
    let t = track(Edge::South, (0, 0, 1000, 60), 10, 100);
    let mut asked = Vec::new();
    let mut fickle = |_: &str, b: Rect, _: Orient| {
        asked.push(b);
        if asked.len() % 3 == 0 {
            None
        } else {
            Some(Refusal { reason: Reason::Blockage, blocker: b, overlap: b })
        }
    };
    let p = place_one(&t, 20, &pad("a", 100, 60), Orient::R0, false, true, &mut fickle).unwrap();
    assert_eq!(asked.len(), 3, "asked until it says yes, and not again");
    assert_eq!(*asked.last().unwrap(), (p.x, p.y, p.x + 100, p.y + 60));
    assert_eq!((p.x, p.y), (220, 0), "one site on after each refusal");
    let mut late = 0;
    let mut sulky = |_: &str, b: Rect, _: Orient| {
        late += 1;
        if late == 1 {
            Some(Refusal { reason: Reason::Blockage, blocker: b, overlap: b })
        } else {
            None
        }
    };
    match place_one(&t, 20, &pad("a", 100, 60), Orient::R0, false, false, &mut sulky) {
        Err(Refused::Blocked { at, why, .. }) => {
            assert_eq!((at, why.overlap), ((200, 0, 300, 60), (200, 0, 300, 60)))
        }
        other => panic!("expected Blocked, got {other:?}"),
    }
}

#[test]
fn a_pad_that_has_landed_can_block_the_next() {
    let t = track(Edge::South, (0, 0, 1000, 60), 10, 100);
    let pads = vec![pad("a", 300, 60), pad("b", 300, 60), pad("c", 300, 60)];
    let taken = std::cell::RefCell::new(vec![(0, 0, 100, 60)]);
    let mut hit = |_: &str, b: Rect, _: Orient| {
        let held = taken.borrow();
        held.iter().find(|k| b.0 < k.2 && k.0 < b.2).map(|k| Refusal {
            reason: Reason::Blockage,
            blocker: *k,
            overlap: (b.0.max(k.0), 0, b.2.min(k.2), 60),
        })
    };
    let r = place_uniform(&t, &pads, None, &mut hit, &mut |p: &Placement| {
        taken.borrow_mut().push((p.x, p.y, p.x + 300, p.y + 60))
    });
    let xs: Vec<i32> = r.unwrap().iter().map(|p| p.x).collect();
    assert_eq!(xs, vec![100, 400, 700], "each slid clear of the one before");
    assert_eq!(taken.borrow().len(), 4);
}
