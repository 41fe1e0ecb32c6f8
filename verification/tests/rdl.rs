use vyges_pad::rdl::obstacle::point_on_segment;
use vyges_pad::rdl::{
    access_blocked, access_points, allows_ripup, blocked, commit_corridor, commit_route, correct_end,
    distance, edge_obstruction, edge_weight, edges, edges_clear, failed_routes, grid, hits,
    insert_access,
    is_failed, is_routed, nearest_tracks, oct_points, order_dests, restore_scale, ripup_probe,
    ripup_targets, route_all, routed_pairs, run_rect, segment_hits_polygon, segments_intersect,
    shortest_path, simplify, snaps_clear_of_diagonal_pin_edges, swire_obstructs, target_pairs, thin,
    undo_access, wires, Dest, Graph, Grid, Obstacle, Point, Route, Target, Terminal, Undo, Wire,
};
use vyges_pad::single::Single;

fn single(v: f32) -> Single {
    Single::from_bits(v.to_bits())
}

fn terminal(name: &str, net: &str, targets: Vec<(Point, Vec<Point>)>) -> Terminal {
    Terminal { name: name.into(), net: net.into(), targets }
}

#[test]
fn thinning_starts_clear_of_the_edge() {
    assert_eq!(thin(&[0, 1, 2, 3, 100], 4, 4), vec![3, 100]);
    assert_eq!(thin(&[0, 1, 2], 4, 4), Vec::<i32>::new(), "none far enough in");
}

#[test]
fn a_track_exactly_one_pitch_away_is_kept() {
    assert_eq!(thin(&[10, 17, 18], 4, 4), vec![10, 18]);
}

#[test]
fn thinning_measures_from_the_last_kept_track_not_the_last_seen() {
    assert_eq!(thin(&[10, 12, 14, 30], 4, 4), vec![10, 30]);
}

#[test]
fn a_grid_has_one_vertex_per_crossing() {
    let g = grid(&[10, 30, 50], &[10, 30], 4, 4);
    assert_eq!(g.vertices(), 6);
    assert_eq!(
        g.points(),
        vec![(10, 10), (10, 30), (30, 10), (30, 30), (50, 10), (50, 30)]
    );
}

#[test]
fn orthogonal_edges_are_counted_once_each() {
    let g = grid(&[10, 30, 50], &[10, 30], 4, 4);
    assert_eq!(edges(&g, false).len(), 7);
}

#[test]
fn a_full_square_grid_has_the_expected_edge_count() {
    let coords: Vec<i32> = (0..10).map(|i| 10 + i * 20).collect();
    let g = grid(&coords, &coords, 4, 4);
    assert_eq!(g.vertices(), 100);
    assert_eq!(edges(&g, false).len(), 2 * 10 * 9);
}

#[test]
fn diagonals_are_added_only_from_even_positions() {
    let coords: Vec<i32> = (0..4).map(|i| 10 + i * 20).collect();
    let g = grid(&coords, &coords, 4, 4);
    let plain = edges(&g, false).len();
    let with45 = edges(&g, true).len();
    assert!(with45 > plain, "diagonals were added");
    assert_eq!(with45 - plain, 9, "half-density diagonal mesh");
}

fn dest(name: &str, inst: &str, c: Point, cover: bool, id: u64) -> Dest {
    Dest { terminal: name.into(), instance: inst.into(), centre: c, cover, id }
}

fn route(c: Point, id: u64, dests: Vec<Dest>) -> Route {
    Route {
        source: "BUMP/PAD".into(),
        instance: "BUMP".into(),
        centre: c,
        id,
        dests,
        next: 0,
        priority: 0,
        routed: false,
        pending: true,
        points: Vec::new(),
        locked: false,
        stubs: Vec::new(),
    }
}

#[test]
fn an_access_point_next_to_a_committed_route_is_closed_off() {
    let laid = [(1000, 1000), (1000, 1100)];
    let routes: Vec<&[Point]> = vec![&laid];
    assert!(access_blocked((1000, 1050), &routes, 80, 80), "right on top of it");
    assert!(access_blocked((1080, 1000), &routes, 80, 80), "within a width and a spacing");
    assert!(!access_blocked((1400, 1000), &routes, 80, 80), "far enough away");
    assert!(!access_blocked((1000, 1050), &[], 80, 80), "nothing committed yet");
}

#[test]
fn a_route_has_failed_only_when_it_is_off_the_queue_and_out_of_options() {
    let mut r = route((0, 0), 1, vec![dest("p", "P", (10, 0), false, 1)]);
    assert!(!is_failed(&r), "still on the queue");
    r.pending = false;
    assert!(!is_failed(&r), "still has a destination to try");
    r.next = 1;
    assert!(is_failed(&r));
    r.routed = true;
    assert!(!is_failed(&r), "routed is not failed");
}

#[test]
fn a_bump_reached_by_another_route_is_not_a_failure() {
    let mut mine = route((0, 0), 1, vec![]);
    mine.source = "BUMP_A/PAD".into();
    mine.pending = false;
    let mut other = route((0, 0), 2, vec![dest("BUMP_A/PAD", "BUMP_A", (5, 5), true, 3)]);
    other.routed = true;
    assert!(is_failed(&mine));
    assert!(failed_routes(&[mine.clone(), other]).is_empty(), "already connected");
    assert_eq!(failed_routes(&[mine]).len(), 1, "nobody else reached it");
}

#[test]
fn the_probe_rotates_its_destination_and_widens_each_failure() {
    let mut r = route(
        (0, 0),
        1,
        vec![dest("a", "A", (100, 0), false, 1), dest("b", "B", (0, 100), false, 2)],
    );
    let (_, first, m0) = ripup_probe(&r, 10).unwrap();
    assert_eq!((first, m0), ((100, 0), 10));
    r.priority = 1;
    let (_, second, m1) = ripup_probe(&r, 10).unwrap();
    assert_eq!(second, (0, 100), "a different corridor is probed");
    assert_eq!(m1, 20, "and a wider one");
    r.priority = 2;
    assert_eq!(ripup_probe(&r, 10).unwrap().1, (100, 0), "wraps around");
}

#[test]
fn a_route_may_displace_another_of_equal_priority() {
    let mut settled = route((0, 0), 1, vec![]);
    settled.routed = true;
    settled.priority = 2;
    assert!(allows_ripup(&settled, 2));
    assert!(allows_ripup(&settled, 3));
    assert!(!allows_ripup(&settled, 1), "a lower priority cannot displace it");
    settled.routed = false;
    assert!(!allows_ripup(&settled, 5), "an unrouted route has nothing to displace");
}

#[test]
fn only_routes_crossing_the_probe_are_displaced() {
    let failing = route((0, 0), 1, vec![dest("a", "A", (1000, 0), false, 1)]);
    let mut across = route((0, 0), 2, vec![]);
    across.routed = true;
    across.points = vec![(500, 0)];
    let mut clear = route((0, 0), 3, vec![]);
    clear.routed = true;
    clear.points = vec![(500, 10_000)];
    let hit = ripup_targets(&failing, &[across, clear], 10);
    assert_eq!(hit, vec![0], "only the one in the way");
}

#[test]
fn a_pad_is_preferred_over_a_nearer_bump() {
    let ds = vec![
        dest("B/PAD", "B", (10, 0), true, 1),
        dest("P/PAD", "P", (1000, 0), false, 2),
    ];
    let ordered = order_dests("BUMP", (0, 0), &ds);
    assert_eq!(ordered[0].terminal, "P/PAD", "the far pad comes before the near bump");
}

#[test]
fn destinations_on_the_source_instance_are_dropped() {
    let ds = vec![dest("BUMP/OTHER", "BUMP", (10, 0), true, 1)];
    assert!(order_dests("BUMP", (0, 0), &ds).is_empty(), "a bump does not route to itself");
}

#[test]
fn equal_kind_destinations_go_nearest_first_then_by_id() {
    let ds = vec![
        dest("c", "C", (30, 0), false, 3),
        dest("a", "A", (10, 0), false, 9),
        dest("b", "B", (10, 0), false, 4),
    ];
    let ordered = order_dests("S", (0, 0), &ds);
    let names: Vec<&str> = ordered.iter().map(|d| d.terminal.as_str()).collect();
    assert_eq!(names, vec!["b", "a", "c"], "distance first, then id");
}

#[test]
fn a_ripped_up_route_is_retried_before_anything_new() {
    let far = route((0, 0), 1, vec![dest("p", "P", (10_000, 0), false, 1)]);
    let mut near = route((0, 0), 2, vec![dest("q", "Q", (10, 0), false, 2)]);
    assert_eq!(near.precedes(&far), std::cmp::Ordering::Less);
    near.priority = 0;
    let mut bumped = far.clone();
    bumped.priority = 1;
    assert_eq!(bumped.precedes(&near), std::cmp::Ordering::Less, "priority wins");
}

#[test]
fn a_route_with_nothing_left_to_try_is_ordered_by_priority_alone() {
    let empty = route((0, 0), 1, vec![]);
    let other = route((0, 0), 2, vec![dest("p", "P", (10, 0), false, 1)]);
    assert_eq!(empty.precedes(&other), std::cmp::Ordering::Equal);
}

#[test]
fn a_committed_route_clears_a_corridor_around_itself() {
    let boxes = commit_corridor(&[(100, 100)], 80, 20);
    assert_eq!(boxes, vec![(39, 39, 161, 161)]);
}

#[test]
fn a_straight_run_collapses_to_one_segment() {
    let path = [(0, 0), (0, 100), (0, 200), (0, 300)];
    assert_eq!(simplify(&path, 80), vec![((0, 0), (0, 300))]);
}

#[test]
fn a_corner_is_mitred_by_half_the_wire_width() {
    let path = [(0, 0), (0, 100), (100, 100)];
    let runs = simplify(&path, 80);
    assert_eq!(runs.len(), 2);
    assert_eq!(runs[0], ((0, 0), (0, 140)), "the vertical run overshoots by 40");
    assert_eq!(runs[1], ((-40, 100), (100, 100)), "the horizontal starts 40 back");
}

#[test]
fn a_diagonal_is_kept_as_a_centre_line() {
    let path = [(0, 0), (100, 100)];
    let w = wires(&path, 80, (0, 0, 0, 0), (0, 0, 0, 0));
    assert_eq!(w, vec![Wire::Diagonal((0, 0), (100, 100), 80)]);
}

#[test]
fn a_run_is_widened_sideways_only() {
    assert_eq!(run_rect((0, 0), (0, 300), 80), (-40, 0, 40, 300));
    assert_eq!(run_rect((0, 0), (300, 0), 80), (0, -40, 300, 40));
}

#[test]
fn an_end_run_reaches_into_a_pad_only_when_it_is_wider_than_it() {
    let run = (0, -40, 300, 40);
    assert_eq!(correct_end(run, true, (280, -100, 340, 100)), run);
    assert_eq!(
        correct_end(run, true, (280, -20, 340, 20)),
        (0, -40, 340, 40),
        "reaches the pad's far edge"
    );
}

#[test]
fn a_path_is_found_across_a_small_grid() {
    let coords: Vec<i32> = (0..5).map(|i| 10 + i * 100).collect();
    let g = grid(&coords, &coords, 4, 4);
    let graph = Graph::build(&g, &edges(&g, false), Single::one());
    let path = shortest_path(&graph, (10, 10), (410, 410), single(2.0));
    assert!(!path.is_empty(), "a clear grid must be crossable");
    assert_eq!(path.first(), Some(&(10, 10)));
    assert_eq!(path.last(), Some(&(410, 410)));
    assert_eq!(path.len(), 9, "no wandering");
}

#[test]
fn a_path_routes_around_a_wall() {
    let coords: Vec<i32> = (0..5).map(|i| 10 + i * 100).collect();
    let g = grid(&coords, &coords, 4, 4);
    let wall = [Obstacle::Rect((150, 0, 170, 350))];
    let e = edges_clear(&g, false, &|a, b| blocked(a, b, &wall));
    let graph = Graph::build(&g, &e, Single::one());
    let path = shortest_path(&graph, (10, 10), (410, 10), single(2.0));
    assert!(!path.is_empty(), "must go around");
    assert!(path.iter().any(|p| p.1 >= 310), "detoured over the wall");
}

#[test]
fn an_unreachable_goal_gives_no_path() {
    let coords: Vec<i32> = (0..5).map(|i| 10 + i * 100).collect();
    let g = grid(&coords, &coords, 4, 4);
    let wall = [Obstacle::Rect((150, -100, 170, 1000))];
    let e = edges_clear(&g, false, &|a, b| blocked(a, b, &wall));
    let graph = Graph::build(&g, &e, Single::one());
    assert!(shortest_path(&graph, (10, 10), (410, 10), single(2.0)).is_empty());
}

#[test]
fn the_nearest_track_on_each_side_is_taken() {
    let axis = [0, 10, 20, 30, 40];
    assert_eq!(nearest_tracks(&axis, 25, &|_| true), vec![20, 30]);
    assert_eq!(nearest_tracks(&axis, 20, &|_| true), vec![10, 30]);
    assert_eq!(nearest_tracks(&axis, -5, &|_| true), vec![0], "nothing below");
    assert_eq!(nearest_tracks(&axis, 100, &|_| true), vec![40], "nothing above");
}

#[test]
fn a_blocked_track_is_passed_over_for_the_next_one() {
    let axis = [0, 10, 20, 30, 40];
    assert_eq!(nearest_tracks(&axis, 25, &|c| c != 20 && c != 30), vec![10, 40]);
}

#[test]
fn a_target_reaches_the_grid_on_four_sides() {
    let g = Grid { x: vec![0, 100, 200], y: vec![0, 100, 200] };
    let t = Target {
        terminal: "u/PAD".into(),
        centre: (150, 150),
        shape: (140, 140, 160, 160),
        access: vec![],
        layer: String::new(),
    };
    let mut pts = access_points(&g, &t, &[], &[]);
    pts.sort_unstable();
    assert_eq!(pts, vec![(100, 150), (150, 100), (150, 200), (200, 150)]);
}

#[test]
fn a_targets_own_metal_does_not_block_the_line_to_its_access() {
    let g = Grid { x: vec![0, 100, 200], y: vec![0, 100, 200] };
    let own = (140, 140, 160, 160);
    let t = Target { terminal: "u/PAD".into(), centre: (150, 150), shape: own, access: vec![], layer: String::new() };
    assert_eq!(access_points(&g, &t, &[Obstacle::Rect(own)], &[Obstacle::Rect(own)]).len(), 4);
    assert!(access_points(&g, &t, &[Obstacle::Rect(own)], &[]).is_empty(), "not excused, none survive");
}

#[test]
fn a_candidate_track_inside_any_obstruction_is_rejected_even_the_targets_own() {
    let g = Grid { x: vec![0, 100, 200, 300], y: vec![150] };
    let own = (90, 140, 210, 160);
    let t = Target { terminal: "u/PAD".into(), centre: (150, 150), shape: own, access: vec![], layer: String::new() };
    let pts = access_points(&g, &t, &[Obstacle::Rect(own)], &[Obstacle::Rect(own)]);
    assert!(!pts.contains(&(100, 150)), "inside the pad, rejected as a candidate");
    assert!(!pts.contains(&(200, 150)), "likewise");
    assert!(pts.contains(&(0, 150)) && pts.contains(&(300, 150)), "the live tracks outside");
}

#[test]
fn an_acute_diagonal_out_of_an_access_point_is_pruned() {
    let g = Grid { x: vec![0, 100, 200, 300, 400], y: vec![0, 100, 200, 300, 400] };
    let build = || Graph::build(&g, &edges(&g, true), Single::one());

    let centre = (150, 250);
    let snap = (150, 200);

    let mut kept = build();
    let before = kept.adj[kept.find((200, 200)).unwrap()].len();
    insert_access(&mut kept, &g, centre, &[snap], false, &|_, _| false);
    let without_prune = kept.adj[kept.find((200, 200)).unwrap()].len();

    let mut pruned = build();
    insert_access(&mut pruned, &g, centre, &[snap], true, &|_, _| false);
    let with_prune = pruned.adj[pruned.find((200, 200)).unwrap()].len();

    assert!(before > 0, "the fixture has edges to prune");
    assert!(
        with_prune < without_prune,
        "allow45 must remove edges: {without_prune} without the prune, {with_prune} with it"
    );

    let v = pruned.find((200, 200)).unwrap();
    let right_angle = pruned.find((200, 300));
    if let Some(ra) = right_angle {
        assert!(
            pruned.adj[v].iter().any(|&(o, _)| o == ra),
            "a right-angle edge must survive the acute prune"
        );
    }

    let (centre_y, snap_y) = ((250, 150), (200, 150));
    let mut y_kept = build();
    insert_access(&mut y_kept, &g, centre_y, &[snap_y], false, &|_, _| false);
    let y_without = y_kept.adj[y_kept.find((200, 200)).unwrap()].len();

    let mut y_pruned = build();
    insert_access(&mut y_pruned, &g, centre_y, &[snap_y], true, &|_, _| false);
    let y_with = y_pruned.adj[y_pruned.find((200, 200)).unwrap()].len();
    assert!(
        y_with < y_without,
        "the y branch must prune too: {y_without} without, {y_with} with"
    );

    let surv = |gr: &Graph| -> Vec<Point> {
        let vtx = gr.find((200, 200)).unwrap();
        let mut v: Vec<Point> = gr.adj[vtx].iter().map(|&(o, _)| gr.points[o]).collect();
        v.sort_unstable();
        v
    };
    assert_ne!(
        surv(&pruned),
        surv(&y_pruned),
        "the x branch and the y branch must remove different edges"
    );
}

#[test]
fn an_obstruction_in_the_way_removes_that_access_point() {
    let g = Grid { x: vec![0, 100, 200], y: vec![0, 100, 200] };
    let t = Target {
        terminal: "u/PAD".into(),
        centre: (150, 150),
        shape: (140, 140, 160, 160),
        access: vec![],
        layer: String::new(),
    };
    let wall = [Obstacle::Rect((120, 0, 130, 300))];
    let pts = access_points(&g, &t, &wall, &[]);
    assert!(!pts.contains(&(100, 150)), "west is blocked");
    assert!(pts.contains(&(200, 150)), "east is not");
}

#[test]
fn a_segment_touching_an_obstruction_is_blocked() {
    let r = (100, 100, 200, 200);
    assert!(hits((0, 150), (150, 150), r), "runs into it");
    assert!(hits((0, 150), (100, 150), r), "touches the edge");
    assert!(hits((0, 0), (100, 100), r), "touches a corner");
    assert!(!hits((0, 150), (99, 150), r), "stops one unit short");
    assert!(!hits((0, 0), (99, 99), r));
}

#[test]
fn a_diagonal_passing_beside_a_rectangle_is_not_blocked() {
    let r = (100, 100, 200, 200);
    assert!(!hits((0, 300), (300, 500), r), "passes above");
    assert!(hits((0, 100), (300, 300), r), "passes through");
}

#[test]
fn obstructed_edges_are_dropped_and_vertices_are_kept() {
    let coords: Vec<i32> = (0..4).map(|i| 10 + i * 20).collect();
    let g = grid(&coords, &coords, 4, 4);
    let all = edges(&g, false).len();
    let blocker = [Obstacle::Rect((25, 0, 35, 1000))];
    let some = edges_clear(&g, false, &|a, b| blocked(a, b, &blocker)).len();
    assert!(some < all, "a wall removes edges");
    assert_eq!(g.vertices(), 16, "and removes no vertices");
}

#[test]
fn distance_is_truncated_rather_than_rounded() {
    assert_eq!(distance((0, 0), (3, 4)), 5);
    assert_eq!(distance((0, 0), (1, 1)), 1);
    assert_eq!(distance((0, 0), (10, 10)), 14);
}

#[test]
fn a_horizontal_edge_costs_one_more_than_the_same_vertical_one() {
    assert_eq!(edge_weight((0, 0), (100, 0), single(1.0)), 101);
    assert_eq!(edge_weight((0, 0), (0, 100), single(1.0)), 100);
}

#[test]
fn the_weight_scale_multiplies_the_distance_but_not_the_bias() {
    assert_eq!(edge_weight((0, 0), (100, 0), single(2.0)), 201);
}

#[test]
fn the_first_segments_octagon_is_never_applied() {
    let grid = Grid { x: vec![40, 60, 140, 160], y: vec![40, 60] };
    let probe1 = ((40, 60), (60, 40));
    let probe2 = ((140, 60), (160, 40));
    let mut graph = Graph::build(&grid, &[probe1, probe2], Single::one());
    let (a1, b1) = (graph.find(probe1.0).unwrap(), graph.find(probe1.1).unwrap());
    let (a2, b2) = (graph.find(probe2.0).unwrap(), graph.find(probe2.1).unwrap());
    assert!(graph.weight_between(a1, b1).is_some() && graph.weight_between(a2, b2).is_some());

    commit_route(&mut graph, &[(0, 0), (100, 100), (200, 0)], 20, 0, true);

    assert!(
        graph.weight_between(a1, b1).is_some(),
        "the first segment is skipped, so its octagon must not cut this edge"
    );
    assert!(
        graph.weight_between(a2, b2).is_none(),
        "the second segment IS checked, so its octagon must cut this edge"
    );
}

#[test]
fn an_axis_aligned_segment_contributes_no_octagon() {
    let grid = Grid { x: vec![150, 160], y: vec![95, 105] };
    let probe = ((150, 95), (160, 105));
    let mut graph = Graph::build(&grid, &[probe], Single::one());
    let (a, b) = (graph.find(probe.0).unwrap(), graph.find(probe.1).unwrap());
    commit_route(&mut graph, &[(0, 0), (100, 100), (200, 100)], 20, 0, true);
    assert!(
        graph.weight_between(a, b).is_some(),
        "the horizontal second segment must not build an octagon"
    );
}

#[test]
fn the_octagon_is_built_at_the_corridor_distance() {
    let grid = Grid { x: vec![160, 165], y: vec![50, 55] };
    let probe = ((160, 55), (165, 50));
    let mut graph = Graph::build(&grid, &[probe], Single::one());
    let (a, b) = (graph.find(probe.0).unwrap(), graph.find(probe.1).unwrap());
    commit_route(&mut graph, &[(0, 0), (100, 100), (200, 0)], 20, 0, true);
    assert!(
        graph.weight_between(a, b).is_none(),
        "x + y = 215 lies within the 178..222 band the full-distance octagon covers"
    );
}

#[test]
fn the_octagon_is_no_wider_than_the_corridor_distance() {
    let grid = Grid { x: vec![170, 175], y: vec![60, 65] };
    let probe = ((170, 65), (175, 60));
    let mut graph = Graph::build(&grid, &[probe], Single::one());
    let (a, b) = (graph.find(probe.0).unwrap(), graph.find(probe.1).unwrap());
    commit_route(&mut graph, &[(0, 0), (100, 100), (200, 0)], 20, 0, true);
    assert!(graph.weight_between(a, b).is_some(), "x + y = 235 is clear of the octagon");
}

#[test]
fn without_allow45_no_octagon_is_applied_at_all() {
    let grid = Grid { x: vec![40, 60, 140, 160], y: vec![40, 60] };
    let (probe1, probe2) = (((40, 60), (60, 40)), ((140, 60), (160, 40)));
    let mut graph = Graph::build(&grid, &[probe1, probe2], Single::one());
    let (a2, b2) = (graph.find(probe2.0).unwrap(), graph.find(probe2.1).unwrap());
    commit_route(&mut graph, &[(0, 0), (100, 100), (200, 0)], 20, 0, false);
    assert!(graph.weight_between(a2, b2).is_some());
}

#[test]
fn a_rising_diagonal_sweeps_the_right_handed_octagon() {
    let ring = edge_obstruction((0, 0), (100, 100), 10);
    assert_eq!(
        ring,
        vec![
            (-5, -10),
            (10, -10),
            (110, 90),
            (110, 105),
            (105, 110),
            (90, 110),
            (-10, 10),
            (-10, -5),
            (-5, -10),
        ]
    );
}

#[test]
fn a_falling_diagonal_sweeps_the_left_handed_octagon_and_recloses_the_ring() {
    let ring = edge_obstruction((100, 0), (0, 100), 10);
    assert_eq!(
        ring,
        vec![
            (90, -10),
            (105, -10),
            (110, -5),
            (110, 10),
            (10, 110),
            (-5, 110),
            (-10, 105),
            (-10, 90),
            (90, -10),
        ]
    );
    assert_eq!(ring[0], ring[8], "the ring must close");
}

#[test]
fn b_is_a_truncated_double_ceil_not_exact_arithmetic() {
    let ring = edge_obstruction((0, 0), (50, 50), 3);
    assert_eq!(ring[7], (-3, -2), "p7 = (low.x - A, low.y - B) = (-3, -2)");
    assert_eq!(ring[0], (-2, -3), "p0 = (low.x - B, low.y - A) = (-2, -3)");
}

#[test]
fn a_y_tie_makes_the_second_point_high() {
    assert_eq!(edge_obstruction((0, 0), (100, 0), 10)[4], (105, 10));
    assert_eq!(edge_obstruction((100, 0), (0, 0), 10)[4], (10, 10));
}

#[test]
fn a_segment_through_the_octagon_hits_and_one_clear_of_it_misses() {
    let ring = edge_obstruction((0, 0), (100, 100), 10);
    assert!(segment_hits_polygon((0, 100), (100, 0), &ring), "crosses the body");
    assert!(segment_hits_polygon((40, 40), (60, 60), &ring), "lies wholly inside");
    assert!(!segment_hits_polygon((-200, 300), (200, 300), &ring), "clear of it");
    assert!(!segment_hits_polygon((-100, 60), (-50, 60), &ring), "beside it, no crossing");
}

#[test]
fn touching_endpoints_and_collinear_overlap_both_count_as_intersecting() {
    assert!(segments_intersect((0, 0), (10, 10), (0, 10), (10, 0)));
    assert!(segments_intersect((0, 0), (10, 0), (10, 0), (10, 10)));
    assert!(segments_intersect((0, 0), (10, 0), (5, 0), (15, 0)));
    assert!(!segments_intersect((0, 0), (10, 0), (11, 0), (20, 0)));
    assert!(!segments_intersect((0, 0), (10, 0), (0, 1), (10, 1)));
    assert!(!segments_intersect((0, 0), (1, 1), (5, 10), (10, 5)));
    assert!(segments_intersect((5, 0), (5, 10), (0, 0), (10, 0)), "p1 on p3p4");
    assert!(segments_intersect((5, 10), (5, 0), (0, 0), (10, 0)), "p2 on p3p4");
    assert!(segments_intersect((0, 0), (10, 0), (5, 0), (5, 10)), "p3 on p1p2");
    assert!(segments_intersect((0, 0), (10, 0), (5, 10), (5, 0)), "p4 on p1p2");
}

#[test]
fn only_a_diagonal_pin_edge_blocks_an_access_line() {
    let oct = vec![
        (10, 4),
        (10, -4),
        (4, -10),
        (-4, -10),
        (-10, -4),
        (-10, 4),
        (-4, 10),
        (4, 10),
        (10, 4),
    ];
    let polys = vec![oct];
    assert_eq!(
        snaps_clear_of_diagonal_pin_edges((0, 0), &[(40, 0)], &polys),
        vec![(40, 0)],
        "an axis-aligned pin edge is not a barrier"
    );
    assert!(
        snaps_clear_of_diagonal_pin_edges((0, 0), &[(40, 40)], &polys).is_empty(),
        "a diagonal pin edge blocks the access line"
    );
    assert_eq!(
        snaps_clear_of_diagonal_pin_edges((0, 0), &[(40, 40), (40, 0), (0, -40)], &polys),
        vec![(40, 0), (0, -40)]
    );
}

#[test]
fn a_terminal_with_no_polygon_geometry_keeps_every_snap() {
    let snaps = [(1, 2), (3, 4), (5, 6)];
    assert_eq!(snaps_clear_of_diagonal_pin_edges((0, 0), &snaps, &[]), snaps.to_vec());
}

#[test]
fn target_pairs_are_ordered_by_distance_then_by_the_four_coordinates() {
    let src = [(0, 0), (100, 0)];
    let dst = [(100, 0), (0, 100)];
    assert_eq!(
        target_pairs(&src, &dst),
        vec![(1, 0), (0, 1), (0, 0), (1, 1)],
        "shortest first; the two 100-unit pairings tie on both source coordinates and are \
         settled by target1.x — (0,100) before (100,0)"
    );
}

#[test]
fn an_exact_tie_is_settled_by_the_destination_coordinates() {
    let src = [(0, 0)];
    let dst = [(4, 3), (3, 4)];
    assert_eq!(
        target_pairs(&src, &dst),
        vec![(0, 1), (0, 0)],
        "equal distance, so the lower destination x wins: (3,4) before (4,3)"
    );
}

#[test]
fn distances_that_differ_only_below_a_unit_tie_rather_than_ordering() {
    assert_eq!(distance((0, 0), (10, 0)), 10);
    assert_eq!(distance((0, 0), (9, 4)), 9, "sqrt(97) = 9.848… truncates to 9");
    let src = [(0, 0)];
    let dst = [(10, 0), (7, 7)];
    assert_eq!(distance((0, 0), (7, 7)), 9);
    assert_eq!(target_pairs(&src, &dst), vec![(0, 1), (0, 0)]);
}

fn pin(term: &str, at: Point, id: u64) -> Dest {
    Dest { terminal: term.into(), instance: term.into(), centre: at, cover: false, id }
}

fn job(src: &str, at: Point, to: Dest, id: u64) -> Route {
    Route {
        source: src.into(),
        instance: src.into(),
        centre: at,
        id,
        dests: vec![to],
        next: 0,
        priority: 0,
        routed: false,
        pending: true,
        points: Vec::new(),
        locked: false,
        stubs: Vec::new(),
    }
}

#[test]
fn an_access_edge_a_route_now_crosses_is_never_restored() {
    let mut g = Graph::default();
    let a = g.vertex((0, 0));
    let b = g.vertex((100, 0));
    let c = g.vertex((0, 100));
    let d = g.vertex((100, 100));
    g.join(a, b, 100);
    g.join(c, d, 100);

    let mut undo = Undo::default();
    for (u, v) in [(a, b), (c, d)] {
        let w = g.weight_between(u, v).unwrap();
        undo.restore.push((u, v, restore_scale(g.points[u], g.points[v], w)));
        g.cut(u, v);
    }
    assert_eq!(g.weight_between(a, b), None);

    let route = [(50, 0)];
    let blocked = |p0: Point, p1: Point| route.iter().any(|&pt| point_on_segment(pt, p0, p1));
    undo_access(&mut g, &undo, &blocked);

    assert_eq!(g.weight_between(a, b), None, "the crossed edge stays out");
    assert_eq!(
        g.weight_between(c, d),
        Some(101),
        "the clear one comes back, one unit dearer for being horizontal"
    );
}

#[test]
fn two_terminals_joined_through_a_chain_count_as_already_routed() {
    let mut ab = job("A", (0, 0), pin("B", (100, 0), 1), 1);
    ab.routed = true;
    ab.next = 1;
    ab.points = vec![(0, 0), (100, 0)];
    let mut bc = job("B", (100, 0), pin("C", (200, 0), 2), 2);
    bc.routed = true;
    bc.next = 1;
    bc.points = vec![(100, 0), (200, 0)];
    let routes = vec![ab, bc];
    let adj = routed_pairs(&routes);

    assert!(is_routed(&adj, "A", "B"), "the direct pair");
    assert!(is_routed(&adj, "B", "A"), "and its reverse — the graph is undirected");
    assert!(
        is_routed(&adj, "A", "C"),
        "A reaches C THROUGH B; a direct-pair test would miss this and route it again"
    );
    assert!(is_routed(&adj, "C", "A"), "and the same the other way");
    assert!(!is_routed(&adj, "A", "D"), "an unconnected terminal is not routed");
    assert!(is_routed(&adj, "A", "A"), "`if (source == dest) return true`");
}

#[test]
fn a_locked_segment_is_not_in_the_routed_graph() {
    let mut locked = job("A", (0, 0), pin("B", (100, 0), 1), 1);
    locked.routed = true;
    locked.locked = true;
    locked.next = 1;
    let routes = vec![locked];
    let adj = routed_pairs(&routes);
    assert!(!is_routed(&adj, "A", "B"), "a locked pair never enters routed_pairs_");
}

#[test]
fn a_route_that_failed_is_not_emitted() {
    let grid = Grid { x: vec![0, 10, 20, 30], y: vec![0] };
    let edges = vec![((0, 0), (10, 0)), ((10, 0), (20, 0)), ((20, 0), (30, 0))];
    let mut graph = Graph::build(&grid, &edges, Single::one());

    let mut routes = vec![
        job("A/p", (0, 0), pin("B/p", (30, 0), 2), 1),
        job("C/p", (10, 0), pin("D/p", (20, 0), 4), 3),
    ];
    routes[1].priority = 10;

    let access = vec![
        terminal("A/p", "N1", vec![((0, 0), vec![(0, 0)])]),
        terminal("B/p", "N1", vec![((30, 0), vec![(30, 0)])]),
        terminal("C/p", "N1", vec![((10, 0), vec![(10, 0)])]),
        terminal("D/p", "N1", vec![((20, 0), vec![(20, 0)])]),
    ];

    let out = route_all(&mut graph, &grid, &mut routes, &access, 8, 4, single(0.0), 1, None, false, &|_, _| false);
    let sources: Vec<&str> = out.paths.iter().map(|(_, s, _, _)| s.as_str()).collect();
    assert_eq!(sources, vec!["C/p"], "only the route that connected is emitted");
    assert_eq!(out.failed, vec!["A/p".to_string()]);
}

#[test]
fn the_destination_recorded_is_the_one_that_connected() {
    let grid = Grid { x: vec![0, 10, 20, 30, 100], y: vec![0] };
    let edges = vec![((0, 0), (10, 0)), ((10, 0), (20, 0)), ((20, 0), (30, 0))];
    let mut graph = Graph::build(&grid, &edges, Single::one());

    let mut r = job("A/p", (0, 0), pin("X/p", (100, 0), 2), 1);
    r.dests.push(pin("B/p", (30, 0), 4));
    let mut routes = vec![r];

    let access = vec![
        terminal("A/p", "N1", vec![((0, 0), vec![(0, 0)])]),
        terminal("X/p", "N1", vec![((100, 0), vec![(100, 0)])]),
        terminal("B/p", "N1", vec![((30, 0), vec![(30, 0)])]),
    ];

    let out = route_all(&mut graph, &grid, &mut routes, &access, 2, 0, single(0.0), 10, None, false, &|_, _| false);
    let dests: Vec<&str> = out.paths.iter().map(|(_, _, d, _)| d.as_str()).collect();
    assert_eq!(dests, vec!["B/p"], "X/p was unreachable, so B/p is what connected");
}

#[test]
fn routes_are_emitted_in_list_order_not_completion_order() {
    let grid = Grid { x: vec![0, 10, 20, 30], y: vec![0, 1000] };
    let edges = vec![
        ((0, 0), (10, 0)),
        ((10, 0), (20, 0)),
        ((20, 0), (30, 0)),
        ((0, 1000), (10, 1000)),
        ((10, 1000), (20, 1000)),
        ((20, 1000), (30, 1000)),
    ];
    let mut graph = Graph::build(&grid, &edges, Single::one());

    let mut routes = vec![
        job("A/p", (0, 0), pin("B/p", (30, 0), 2), 1),
        job("C/p", (0, 1000), pin("D/p", (30, 1000), 4), 3),
    ];
    routes[1].priority = 10;

    let access = vec![
        terminal("A/p", "N1", vec![((0, 0), vec![(0, 0)])]),
        terminal("B/p", "N1", vec![((30, 0), vec![(30, 0)])]),
        terminal("C/p", "N2", vec![((0, 1000), vec![(0, 1000)])]),
        terminal("D/p", "N2", vec![((30, 1000), vec![(30, 1000)])]),
    ];

    let out = route_all(&mut graph, &grid, &mut routes, &access, 2, 0, single(0.0), 10, None, false, &|_, _| false);

    let sources: Vec<&str> = out.paths.iter().map(|(_, s, _, _)| s.as_str()).collect();
    assert_eq!(
        sources,
        vec!["A/p", "C/p"],
        "emitted in route-list order even though C/p routed first"
    );
    assert_eq!(
        out.log.first().map(|(src, ..)| src.as_str()),
        Some("C/p"),
        "C/p was attempted first"
    );
}

#[test]
fn a_fixed_swire_on_the_net_being_routed_still_obstructs_it() {
    assert!(swire_obstructs(true, true), "a FIXED swire is kept, so it obstructs its own net");
    assert!(!swire_obstructs(true, false));
    assert!(swire_obstructs(false, false));
    assert!(swire_obstructs(false, true));
}

#[test]
fn the_plain_octagon_keeps_odbs_truncated_b() {
    let pts = oct_points((0, 0), (0, 100), 40);
    assert_eq!(pts.len(), 9);
    assert_eq!(pts[0], (-9, -20), "low oct (-B, -A)");
    assert_eq!(pts[8], pts[0], "the ring is closed");
    assert_eq!(pts[1], (9, -20), "low oct (B, -A)");
    assert_eq!(pts[4], (9, 120), "high oct (B, A)");
    assert_eq!(pts[5], (-9, 120), "high oct (-B, A)");
    assert_eq!(pts[2], (20, -9), "LEFT: low oct (A, -B)");
    assert_eq!(pts[6], (-20, 109), "LEFT: high oct (-A, B)");
    assert_eq!(oct_points((0, 0), (100, 0), 40)[4], (109, 20));
}

fn octagon() -> Vec<Point> {
    vec![
        (12_000, -28_000),
        (-12_000, -28_000),
        (-28_000, -12_000),
        (-28_000, 12_000),
        (-12_000, 28_000),
        (12_000, 28_000),
        (28_000, 12_000),
        (28_000, -12_000),
        (12_000, -28_000),
    ]
}

#[test]
fn the_rectangle_decomposition_of_an_octagon_is_not_the_octagon() {
    let oct = Obstacle::from_ring(octagon());
    let decomposed = [
        Obstacle::Rect((-28_000, -28_000, 12_000, -12_000)),
        Obstacle::Rect((-28_000, -12_000, 28_000, 12_000)),
        Obstacle::Rect((-12_000, 12_000, 28_000, 28_000)),
    ];
    let p = (-24_000, -24_000);
    assert!(decomposed.iter().any(|o| o.hits(p, p)), "the decomposition covers this corner");
    assert!(!oct.hits(p, p), "the octagon does not — it is cut off at 45 degrees");
}

#[test]
fn an_octagon_blocks_a_line_through_its_body_and_not_one_past_its_cut_corner() {
    let oct = Obstacle::from_ring(octagon());
    assert!(oct.hits((-40_000, 0), (40_000, 0)), "straight through the middle");
    assert!(oct.hits((0, -40_000), (0, 40_000)), "and the other way");
    assert!(!oct.hits((-40_000, -22_000), (-22_000, -40_000)), "outside the cut corner");
    assert!(!oct.hits((-40_000, -40_000), (40_000, -40_000)), "well below it");
}

#[test]
fn the_bounding_box_never_decides_a_hit_on_its_own() {
    let oct = Obstacle::from_ring(octagon());
    assert_eq!(oct.bbox(), (-28_000, -28_000, 28_000, 28_000));
    let corner = ((-28_000, -28_000), (-24_000, -24_000));
    assert!(hits(corner.0, corner.1, oct.bbox()), "inside the bounding box");
    assert!(!oct.hits(corner.0, corner.1), "but outside the octagon");
}

#[test]
fn a_rectangular_ring_collapses_to_a_rectangle() {
    let r = Obstacle::from_ring(vec![(0, 0), (100, 0), (100, 50), (0, 50), (0, 0)]);
    assert_eq!(r, Obstacle::Rect((0, 0, 100, 50)));
    let l = Obstacle::from_ring(vec![
        (0, 0),
        (100, 0),
        (100, 50),
        (50, 50),
        (50, 100),
        (0, 100),
        (0, 0),
    ]);
    assert!(matches!(l, Obstacle::Poly { .. }), "an L is not its bounding box");
    assert!(!l.hits((60, 60), (90, 90)), "the notch is empty");
    assert!(l.hits((10, 60), (40, 90)), "the arm is not");
}
