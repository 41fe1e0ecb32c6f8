use vyges_pad::rdl::connect::{is_routed, routed_pairs};
use vyges_pad::rdl::heap::CostHeap;
use vyges_pad::rdl::{
    access_blocked, commit_route, distance, edge_obstruction, edge_weight, edges, failed_routes, hits,
    insert_access, nearest_tracks, neighbours, oct_points, order_dests, restore_scale, route_all,
    segment_hits_polygon, segments_intersect, shortest_path, simplify, target_pairs, thin,
    undo_access, wires, Dest, Graph, Grid, Obstacle, Point, Route, Terminal, Wire,
};
use vyges_pad::single::Single;

fn square_grid(n: i32) -> Grid {
    let axis: Vec<i32> = (0..n).map(|i| i * 100).collect();
    Grid { x: axis.clone(), y: axis }
}

fn neighbours_by_point(g: &Graph) -> Vec<(Point, Vec<Point>)> {
    g.points
        .iter()
        .enumerate()
        .map(|(i, p)| {
            let mut list: Vec<Point> = g.adj[i].iter().map(|&(o, _)| g.points[o]).collect();
            list.sort_unstable();
            (*p, list)
        })
        .collect()
}

#[test]
fn kept_tracks_are_never_closer_than_a_wire_and_its_spacing() {
    let tracks: Vec<i32> = (0..200).map(|i| i * 3).collect();
    let kept = thin(&tracks, 10, 7);
    assert_eq!(kept.first(), Some(&6));
    for w in kept.windows(2) {
        assert!(w[1] - w[0] >= 17, "{} and {}", w[0], w[1]);
    }
}

#[test]
fn a_fresh_edge_costs_its_length_and_one_more_where_it_is_horizontal() {
    for d in [1, 2, 29, 100, 25_600, 16_777_215] {
        assert_eq!(edge_weight((5, 5), (5 + d, 5), Single::one()), i64::from(d) + 1);
        assert_eq!(edge_weight((5, 5), (5, 5 + d), Single::one()), i64::from(d));
    }
    let slant = edge_weight((0, 0), (30, 40), Single::one());
    assert_eq!(slant, 50);
}

#[test]
fn a_horizontal_edge_grows_dearer_each_time_it_is_put_back() {
    let (a, b) = ((0, 0), (25_600, 0));
    let fresh = edge_weight(a, b, Single::one());
    assert_eq!(fresh, 25_601);
    let again = edge_weight(a, b, restore_scale(a, b, fresh));
    assert_eq!(again, 25_602);
}

#[test]
fn a_vertical_edge_is_put_back_as_it_was() {
    for d in [1, 7, 25_600, 20_000_001, i32::MAX] {
        let (a, b) = ((0, 0), (0, d));
        let fresh = edge_weight(a, b, Single::one());
        let scale = restore_scale(a, b, fresh);
        assert_eq!(f32::from_bits(scale.to_bits()), 1.0, "{d}");
        assert_eq!(edge_weight(a, b, scale), fresh);
    }
}

#[test]
fn distances_are_whole_roots_rounded_down() {
    assert_eq!(distance((i32::MIN, 0), (i32::MAX, 0)), 4_294_967_295);
    assert_eq!(distance((0, 0), (2, 1)), 2);
    assert_eq!(distance((7, 7), (7, 7)), 0);
}

#[test]
fn every_neighbour_is_one_step_away_and_listed_once() {
    let g = square_grid(5);
    for i in 0..5 {
        for j in 0..5 {
            let list = neighbours(&g, i, j, true);
            for (k, &(a, b)) in list.iter().enumerate() {
                assert!(a.abs_diff(i) <= 1 && b.abs_diff(j) <= 1 && (a, b) != (i, j));
                assert!(!list[..k].contains(&(a, b)));
            }
        }
    }
    assert_eq!(neighbours(&g, 0, 0, false), vec![(0, 1), (1, 0)]);
}

#[test]
fn a_segment_and_a_rectangle_touch_where_they_share_a_point() {
    let r = (0, 0, 10, 10);
    assert!(hits((-5, 5), (0, 5), r));
    assert!(hits((-1, 11), (1, 9), r), "grazes the corner at (0, 10)");
    assert!(!hits((-2, 11), (1, 14), r));
    assert!(!hits((-1, 12), (1, 10), (1, 0, 10, 9)));
    assert!(hits((3, 3), (4, 7), r), "lies within");
}

#[test]
fn a_rectangle_and_its_ring_touch_the_same_segments() {
    let r = (2, 3, 9, 8);
    let ring = [(2, 3), (9, 3), (9, 8), (2, 8), (2, 3)];
    for ax in 0..12 {
        for ay in 0..12 {
            for (bx, by) in [(0, 0), (5, 5), (11, 2), (2, 11), (9, 8), (1, 4)] {
                let (a, b) = ((ax, ay), (bx, by));
                assert_eq!(hits(a, b, r), segment_hits_polygon(a, b, &ring), "{a:?} {b:?}");
            }
        }
    }
}

#[test]
fn the_bounding_box_rejects_nothing_that_touches_the_ring() {
    let ring = edge_obstruction((0, 0), (40, 40), 6);
    let whole = Obstacle::from_ring(ring.clone());
    for x in -20..60 {
        for (c, d) in [((x, -20), (x + 7, 60)), ((x, x), (x, x)), ((-20, x), (60, x - 9))] {
            assert_eq!(whole.hits(c, d), segment_hits_polygon(c, d, &ring), "{c:?} {d:?}");
        }
    }
}

#[test]
fn octagons_are_closed_rings() {
    for (p, q) in [((0, 0), (50, 50)), ((50, 0), (0, 50)), ((0, 0), (0, 9)), ((3, 3), (3, 3))] {
        let a = oct_points(p, q, 12);
        let b = edge_obstruction(p, q, 12);
        assert_eq!((a.len(), a[0]), (9, a[8]));
        assert_eq!((b.len(), b[0]), (9, b[8]));
    }
}

#[test]
fn ripping_a_route_up_gives_its_edges_back() {
    let g = square_grid(5);
    let mut graph = Graph::build(&g, &edges(&g, true), Single::one());
    let before = neighbours_by_point(&graph);
    let path = [(0, 0), (100, 0), (200, 0), (300, 100)];
    let undo = commit_route(&mut graph, &path, 20, 10, true);
    let taken = neighbours_by_point(&graph);
    assert_ne!(before, taken);
    for (p, list) in &taken {
        assert!(!path.contains(p) || list.is_empty(), "{p:?} still has edges");
    }
    graph.undo(&undo);
    assert_eq!(neighbours_by_point(&graph), before);
}

#[test]
fn a_cut_edge_is_gone_and_no_other() {
    let g = square_grid(3);
    let mut graph = Graph::build(&g, &edges(&g, false), Single::one());
    let (a, b) = (graph.find((0, 0)).unwrap(), graph.find((100, 0)).unwrap());
    let total: usize = graph.adj.iter().map(|l| l.len()).sum();
    graph.cut(a, b);
    assert_eq!(graph.weight_between(a, b), None);
    assert_eq!(graph.weight_between(b, a), None);
    assert_eq!(graph.adj.iter().map(|l| l.len()).sum::<usize>(), total - 2);
    graph.join(a, b, 7);
    graph.join(a, b, 9);
    assert_eq!(graph.weight_between(b, a), Some(7), "a second join changes nothing");
    graph.join(a, a, 1);
    assert_eq!(graph.weight_between(a, a), None, "no vertex is joined to itself");
    assert_eq!(graph.find((1, 1)), None);
}

#[test]
fn an_access_that_is_undone_leaves_the_grid_as_it_was() {
    let g = square_grid(4);
    let mut graph = Graph::build(&g, &edges(&g, false), Single::one());
    let before = neighbours_by_point(&graph);
    let undo = insert_access(&mut graph, &g, (150, 150), &[(100, 150), (150, 200)], false, &|_, _| false);
    assert!(!shortest_path(&graph, (150, 150), (0, 0), Single::one()).is_empty());
    undo_access(&mut graph, &undo, &|_, _| false);
    let after = neighbours_by_point(&graph);
    assert_eq!(after[..before.len()], before[..]);
    assert!(after[before.len()..].iter().all(|(_, l)| l.is_empty()));
}

#[test]
fn the_heap_hands_the_least_out_first_and_keeps_everything() {
    let mut heap = CostHeap::new();
    let costs = [9, 3, 7, 3, 1, 8, 2, 2, 6, 5, 0, 4];
    for (v, c) in costs.iter().enumerate() {
        heap.push((*c, v));
    }
    let mut out = Vec::new();
    while let Some((c, _)) = heap.pop() {
        out.push(c);
    }
    let mut want = costs.to_vec();
    want.sort_unstable();
    assert_eq!(out, want);
}

#[test]
fn a_path_runs_along_edges_from_end_to_end() {
    let g = square_grid(6);
    let graph = Graph::build(&g, &edges(&g, true), Single::one());
    let path = shortest_path(&graph, (0, 500), (500, 0), Single::one());
    assert_eq!((path.first(), path.last()), (Some(&(0, 500)), Some(&(500, 0))));
    for w in path.windows(2) {
        let (a, b) = (graph.find(w[0]).unwrap(), graph.find(w[1]).unwrap());
        assert!(graph.weight_between(a, b).is_some());
    }
    assert!(shortest_path(&graph, (0, 500), (1, 1), Single::one()).is_empty(), "not on the graph");
    assert_eq!(shortest_path(&graph, (0, 0), (0, 0), Single::one()), vec![(0, 0)]);
}

#[test]
fn runs_start_and_end_with_their_path() {
    let path = [(0, 0), (100, 0), (200, 100), (200, 200), (300, 200)];
    let runs = simplify(&path, 20);
    assert_eq!(runs.first().unwrap().0, (0, 0));
    assert_eq!(runs.last().unwrap().1, (300, 200));
    assert!(simplify(&path[..1], 20).is_empty());
    let w = wires(&path[..2], 20, (-10, -10, 10, 10), (90, -10, 110, 10));
    assert_eq!(w, vec![Wire::Straight((0, -10, 100, 10))]);
}

#[test]
fn the_nearest_usable_coordinates_are_found_in_any_order_of_tracks() {
    assert_eq!(nearest_tracks(&[40, 0, 30, 10, 20], 25, &|_| true), vec![20, 30]);
    assert_eq!(nearest_tracks(&[], 25, &|_| true), Vec::<i32>::new());
}

#[test]
fn a_box_beside_a_committed_route_is_not_blocked_by_its_diagonal() {
    let laid = [(0, 0)];
    assert!(access_blocked((100, -100), &[&laid], 60, 40), "the boxes touch at a corner");
    assert!(!access_blocked((101, -100), &[&laid], 60, 40));
}

fn dest(name: &str, centre: Point, cover: bool, id: u64) -> Dest {
    Dest { terminal: name.into(), instance: name.into(), centre, cover, id }
}

fn job(name: &str, centre: Point, dests: Vec<Dest>, id: u64) -> Route {
    Route {
        source: name.into(),
        instance: name.into(),
        centre,
        id,
        dests,
        next: 0,
        priority: 0,
        routed: false,
        pending: true,
        points: Vec::new(),
        locked: false,
        stubs: Vec::new(),
    }
}

#[test]
fn destinations_are_tried_pads_first_and_then_by_distance() {
    let list = [
        dest("far-pad", (900, 0), false, 1),
        dest("near-bump", (10, 0), true, 2),
        dest("near-pad", (100, 0), false, 3),
        dest("self", (1, 0), false, 4),
        dest("far-bump", (800, 0), true, 5),
    ];
    let order = order_dests("self", (0, 0), &list);
    let names: Vec<&str> = order.iter().map(|d| d.terminal.as_str()).collect();
    assert_eq!(names, vec!["near-pad", "far-pad", "near-bump", "far-bump"]);
    let tied = [dest("third", (0, 50), false, 9), dest("first", (50, 0), false, 2)];
    let order = order_dests("self", (0, 0), &tied);
    assert_eq!(order.iter().map(|d| d.id).collect::<Vec<_>>(), vec![2, 9], "the lower id first");
}

#[test]
fn only_one_of_two_routes_goes_first() {
    let a = job("a", (0, 0), vec![dest("x", (10, 0), false, 1)], 1);
    let b = job("b", (0, 0), vec![dest("x", (10, 0), false, 1)], 2);
    assert_eq!(b.precedes(&a), std::cmp::Ordering::Less);
    assert_eq!(a.precedes(&b), std::cmp::Ordering::Greater);
    assert_eq!(a.precedes(&a), std::cmp::Ordering::Equal);
    assert!(a.peek().is_some() && a.has_next());
}

#[test]
fn a_bump_that_another_route_ended_at_is_no_failure() {
    let mut mine = job("b", (0, 0), vec![], 1);
    mine.pending = false;
    let dests = vec![dest("x", (5, 5), false, 1), dest("b", (9, 9), true, 2)];
    let mut other = job("a", (0, 0), dests, 2);
    other.routed = true;
    other.next = 2;
    assert!(failed_routes(&[mine.clone(), other.clone()]).is_empty(), "it ended at b");
    other.next = 1;
    assert_eq!(failed_routes(&[mine, other]), vec![0], "it ended at x, and b is only next");
}

#[test]
fn every_pairing_of_targets_is_tried_once() {
    let src = [(0, 0), (50, 50), (9, 9)];
    let dst = [(1, 1), (70, 70)];
    let mut pairs = target_pairs(&src, &dst);
    assert_eq!(pairs.len(), 6);
    pairs.sort_unstable();
    pairs.dedup();
    assert_eq!(pairs.len(), 6);
    assert!(target_pairs(&src, &[]).is_empty());
}

#[test]
fn segments_touch_each_other_alike_from_either_side() {
    let points = [(0, 0), (4, 0), (2, 3), (1, 1), (5, 5)];
    for a in points {
        for b in points {
            for c in points {
                for d in points {
                    assert_eq!(
                        segments_intersect(a, b, c, d),
                        segments_intersect(d, c, b, a),
                        "{a:?} {b:?} {c:?} {d:?}"
                    );
                }
            }
        }
    }
}

#[test]
fn connections_carry_on_through_a_terminal() {
    let mut routes = vec![
        job("a", (0, 0), vec![dest("b", (9, 0), false, 1)], 1),
        job("c", (0, 0), vec![dest("b", (9, 0), false, 1)], 2),
    ];
    for r in &mut routes {
        r.routed = true;
        r.next = 1;
        r.points = vec![(0, 0), (9, 0)];
    }
    let pairs = routed_pairs(&routes);
    assert!(is_routed(&pairs, "a", "c") && is_routed(&pairs, "c", "a"));
    assert!(!is_routed(&pairs, "a", "d"));
}

fn terminal(name: &str, at: Point) -> Terminal {
    Terminal { name: name.into(), net: "N".into(), targets: vec![(at, vec![at])] }
}

#[test]
fn a_run_stops_after_the_rounds_it_was_allowed() {
    let grid = Grid { x: vec![0, 10, 20, 30], y: vec![0] };
    let list = vec![((0, 0), (10, 0)), ((10, 0), (20, 0)), ((20, 0), (30, 0))];
    for most in [0, 1, 2, 5] {
        let mut graph = Graph::build(&grid, &list, Single::one());
        let mut routes = vec![
            job("A", (0, 0), vec![dest("B", (30, 0), false, 2)], 1),
            job("C", (10, 0), vec![dest("D", (20, 0), false, 4)], 3),
        ];
        let access = [
            terminal("A", (0, 0)),
            terminal("B", (30, 0)),
            terminal("C", (10, 0)),
            terminal("D", (20, 0)),
        ];
        let zero = Single::from_int(0);
        let out = route_all(
            &mut graph,
            &grid,
            &mut routes,
            &access,
            8,
            4,
            zero,
            most,
            None,
            false,
            &|_, _| false,
        );
        assert!(1 <= out.iterations && out.iterations <= most + 1, "{most}");
        assert_eq!(out.paths.len() + out.failed.len(), 2);
    }
}

#[test]
fn a_rebuilt_graph_routes_the_same_corridors() {
    let grid = Grid { x: vec![0, 10, 20, 30], y: vec![0, 1000] };
    let list = vec![
        ((0, 0), (10, 0)),
        ((10, 0), (20, 0)),
        ((20, 0), (30, 0)),
        ((0, 1000), (10, 1000)),
        ((10, 1000), (20, 1000)),
        ((20, 1000), (30, 1000)),
    ];
    let mut graph = Graph::build(&grid, &list, Single::one());
    let mut routes = vec![
        job("A", (0, 0), vec![dest("B", (30, 0), false, 2)], 1),
        job("C", (0, 1000), vec![dest("D", (30, 1000), false, 4)], 3),
    ];
    let access = [
        terminal("A", (0, 0)),
        terminal("B", (30, 0)),
        terminal("C", (0, 1000)),
        terminal("D", (30, 1000)),
    ];
    let out = route_all(
        &mut graph,
        &grid,
        &mut routes,
        &access,
        2,
        0,
        Single::one(),
        10,
        Some(&list),
        false,
        &|_, _| false,
    );
    assert!(out.failed.is_empty());
    for (_, source, dest, path) in &out.paths {
        let at = |name: &str| access.iter().find(|t| t.name == name).unwrap().targets[0].0;
        assert_eq!((path[0], path[path.len() - 1]), (at(source), at(dest)));
    }
    assert_eq!(out.paths[0].3, vec![(0, 0), (10, 0), (20, 0), (30, 0)]);
    assert_eq!(out.paths[1].2, "D");
}

#[test]
fn a_lone_run_is_corrected_at_both_ends() {
    let route = [(0, 0), (100, 0)];
    let w = wires(&route, 80, (-10, -20, 10, 20), (90, -20, 140, 20));
    assert_eq!(w, vec![Wire::Straight((-10, -40, 140, 40))]);
}

#[test]
fn only_a_ring_along_all_sides_of_its_box_is_a_rectangle() {
    let triangle = Obstacle::from_ring(vec![(0, 0), (10, 0), (0, 10), (0, 0)]);
    assert!(matches!(&triangle, Obstacle::Poly { bbox: (0, 0, 10, 10), .. }));
    assert!(!triangle.hits((8, 8), (9, 9)), "beyond the slanted side");
    assert!(triangle.hits((4, 4), (9, 9)));
    let bow = Obstacle::from_ring(vec![(0, 0), (10, 10), (10, 0), (0, 10), (0, 0)]);
    assert!(matches!(bow, Obstacle::Poly { .. }), "crosses itself");
    let short = Obstacle::from_ring(vec![(0, 0), (10, 0), (10, 10), (10, 0), (0, 0)]);
    assert!(matches!(short, Obstacle::Poly { .. }), "leaves a corner out");
    let twice = vec![(0, 0), (9, 0), (9, 5), (0, 5), (0, 0), (9, 0), (9, 5), (0, 5), (0, 0)];
    assert_eq!(Obstacle::from_ring(twice), Obstacle::Rect((0, 0, 9, 5)), "goes round twice");
    let back = vec![(0, 0), (10, 0), (10, 10), (0, 10), (10, 10), (10, 0), (0, 0)];
    assert_eq!(Obstacle::from_ring(back), Obstacle::Rect((0, 0, 10, 10)));
    let nothing = Obstacle::from_ring(vec![]);
    assert_eq!(nothing, Obstacle::Rect((i32::MAX, i32::MAX, i32::MIN, i32::MIN)));
    assert!(!nothing.hits((-5, -5), (5, 5)));
    assert_eq!(Obstacle::from_ring(vec![(3, 4)]), Obstacle::Rect((3, 4, 3, 4)));
    let with_repeats = vec![(0, 0), (10, 0), (10, 0), (10, 10), (0, 10), (0, 0)];
    assert!(matches!(Obstacle::from_ring(with_repeats), Obstacle::Rect((0, 0, 10, 10))));
}

#[test]
fn a_ring_made_a_rectangle_is_hit_as_its_ring_is() {
    let rings = [
        vec![(0, 0), (6, 0), (6, 4), (0, 4), (0, 0)],
        vec![(6, 4), (6, 0), (0, 0), (0, 4), (6, 4)],
        vec![(0, 0), (6, 0), (0, 0), (6, 0), (6, 4), (0, 4), (0, 0)],
        vec![(0, 0), (6, 0), (0, 0)],
    ];
    for ring in rings {
        let whole = Obstacle::from_ring(ring.clone());
        for ax in -2..9 {
            for ay in -2..7 {
                for b in [(-1, -1), (3, 2), (3, 0), (7, 1), (2, 6), (6, 4)] {
                    let a = (ax, ay);
                    assert_eq!(whole.hits(a, b), segment_hits_polygon(a, b, &ring), "{a:?} {b:?}");
                }
            }
        }
    }
}

#[test]
fn a_ring_gone_round_twice_is_hit_wherever_its_sides_are() {
    let once = [(0, 0), (6, 0), (6, 4), (0, 4)];
    let ring: Vec<Point> = once.iter().chain(once.iter()).chain([&once[0]]).copied().collect();
    let whole = Obstacle::from_ring(ring.clone());
    let within = |p: Point| 0 < p.0 && p.0 < 6 && 0 < p.1 && p.1 < 4;
    for ax in -2..9 {
        for ay in -2..7 {
            for b in [(-1, -1), (3, 2), (3, 0), (7, 1), (2, 6), (6, 4)] {
                let a = (ax, ay);
                if within(a) && within(b) {
                    assert!(whole.hits(a, b));
                } else {
                    assert_eq!(whole.hits(a, b), segment_hits_polygon(a, b, &ring), "{a:?} {b:?}");
                }
            }
        }
    }
}

#[test]
fn touching_is_mutual_and_means_a_shared_point() {
    let points: Vec<Point> = (0..4).flat_map(|x| (0..4).map(move |y| (x, y))).collect();
    for &a in &points {
        for &b in &points {
            for &c in &points {
                let d = (3 - a.0, b.1);
                let touch = segments_intersect(a, b, c, d);
                assert_eq!(touch, segments_intersect(c, d, a, b));
                assert_eq!(touch, segments_intersect(b, a, d, c));
                if [a, b].contains(&c) || [a, b].contains(&d) {
                    assert!(touch, "{a:?} {b:?} {c:?} {d:?} share an end");
                }
            }
        }
    }
    assert!(segments_intersect((0, 0), (3, 3), (0, 3), (3, 0)), "between the grid points");
    assert!(segments_intersect((0, 0), (3, 0), (1, 0), (2, 0)), "one within the other");
    assert!(!segments_intersect((0, 0), (1, 0), (2, 0), (3, 0)), "on one line and apart");
    assert!(!segments_intersect((0, 0), (3, 3), (2, 0), (2, 1)));
}

#[test]
fn ripping_a_route_up_gives_its_edges_back_at_their_recovered_costs() {
    let axis = vec![0, 25_600, 51_200, 76_800];
    let g = Grid { x: axis.clone(), y: axis };
    let mut graph = Graph::build(&g, &edges(&g, true), Single::one());
    let before = graph.adj.clone();
    let undo = commit_route(&mut graph, &[(0, 0), (25_600, 0), (51_200, 0)], 20, 10, true);
    let taken = graph.adj.clone();
    graph.undo(&undo);
    let mut dearer = 0;
    for (a, list) in before.iter().enumerate() {
        for (b, had) in list {
            let has = graph.weight_between(a, *b).unwrap();
            assert_eq!(Some(has), graph.weight_between(*b, a), "the same from either end");
            let (p, q) = (graph.points[a], graph.points[*b]);
            let cut = !taken[a].iter().any(|l| l.0 == *b);
            if cut && p.1 == q.1 {
                assert_eq!((*had, has), (25_601, 25_602), "a cut horizontal edge is dearer");
                assert_eq!(has, edge_weight(p, q, restore_scale(p, q, *had)));
                dearer += 1;
            } else {
                assert_eq!(has, *had, "{p:?} {q:?}");
            }
        }
    }
    assert!(dearer > 0);
}

#[test]
fn a_restored_horizontal_edge_costs_one_more_or_the_same() {
    for d in 1..2000 {
        let (p, q) = ((0, 0), (d, 0));
        let w = edge_weight(p, q, Single::one());
        assert_eq!(w, i64::from(d) + 1);
        let back = edge_weight(p, q, restore_scale(p, q, w));
        assert!(back == w || back == w + 1, "{d}: {w} {back}");
    }
    let (p, q) = ((0, 0), (29, 0));
    assert_eq!(edge_weight(p, q, restore_scale(p, q, 30)), 30, "lands just below");
    for d in [25_600, 8_388_606, 8_388_607] {
        let (p, q) = ((0, 0), (d, 0));
        let w = i64::from(d) + 1;
        assert_eq!(edge_weight(p, q, restore_scale(p, q, w)), w + 1);
    }
}

#[test]
fn with_free_turns_no_walk_is_cheaper_than_the_path() {
    let g = Grid { x: vec![0, 70, 100, 330, 400], y: vec![0, 10, 200, 210] };
    let mut graph = Graph::build(&g, &edges(&g, false), Single::one());
    for (p, q) in [((70, 0), (100, 0)), ((70, 10), (100, 10)), ((330, 200), (400, 200))] {
        let (a, b) = (graph.find(p).unwrap(), graph.find(q).unwrap());
        graph.cut(a, b);
    }
    let n = graph.points.len();
    for start in 0..n {
        let mut best = vec![i64::MAX / 2; n];
        best[start] = 0;
        for _ in 0..n {
            for a in 0..n {
                for &(b, w) in &graph.adj[a] {
                    best[b] = best[b].min(best[a] + w);
                }
            }
        }
        for goal in 0..n {
            let path =
                shortest_path(&graph, graph.points[start], graph.points[goal], Single::from_int(0));
            let mut cost = 0;
            for step in path.windows(2) {
                let (a, b) = (graph.find(step[0]).unwrap(), graph.find(step[1]).unwrap());
                cost += graph.weight_between(a, b).unwrap();
            }
            assert_eq!(cost, best[goal], "{:?} {:?}", graph.points[start], graph.points[goal]);
        }
    }
}
