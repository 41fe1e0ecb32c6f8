use vyges_pad::single::Single;
use vyges_pad::spread::{
    forces, ideal_position, nearest_legal, pool_adjacent_violators, spread_pass, step_move,
    unconstrained_start, Anchor, MAX_ITERATIONS, SPRING_FADE_FROM, SPRING_FADE_TO, SPRING_START,
};

fn single(v: f32) -> Single {
    Single::from_bits(v.to_bits())
}

fn float(s: Single) -> f32 {
    f32::from_bits(s.to_bits())
}

fn anchors(spec: &[(i32, i32)]) -> Vec<Anchor> {
    spec.iter().map(|&(p, w)| Anchor::at(p, w)).collect()
}

#[test]
fn overlap_is_measured_one_way_only() {
    let a = Anchor::at(100, 50);
    let b = Anchor::at(120, 50);
    assert_eq!(a.overlap(&b), 70, "b reaches 70 past a's start");
    assert_eq!(b.overlap(&a), 30, "and the reverse is a different number");
    let behind = Anchor::at(0, 50);
    assert_eq!(a.overlap(&behind), 0, "clear behind means no push");
    let ahead = Anchor::at(400, 50);
    assert_eq!(a.overlap(&ahead), 350, "nonsense, and never asked for");
}

#[test]
fn any_non_zero_force_moves_at_least_one_site() {
    assert_eq!(step_move(1, single(0.1), 0, 0, single(0.5), single(0.2), 1000), 1000);
    assert_eq!(step_move(0, single(0.1), 0, 0, single(0.5), single(0.2), 1000), 0, "no force, no move");
}

#[test]
fn an_overlap_pushes_by_the_overlap_plus_a_whole_site() {
    assert!(step_move(0, single(0.0), 500, 0, single(0.5), single(0.2), 1000) > 0);
    assert!(step_move(0, single(0.0), 0, 500, single(0.5), single(0.2), 1000) < 0);
}

#[test]
fn a_pass_separates_two_overlapping_pads() {
    let mut a = anchors(&[(1000, 1000), (1500, 1000)]);
    let targets = [1500, 2000];
    let had = spread_pass(&mut a, &targets, (0, 10_000), single(0.1), single(0.5), single(0.2), 100, &|p| p);
    assert!(had, "the pass reports the overlap it found");
    assert!(a[1].min >= a[0].min, "and the order is preserved");
}

#[test]
fn a_settled_row_reports_no_violation() {
    let mut a = anchors(&[(0, 1000), (2000, 1000), (4000, 1000)]);
    let targets = [500, 2500, 4500];
    assert!(!spread_pass(&mut a, &targets, (0, 10_000), single(0.0), single(0.5), single(0.2), 100, &|p| p));
}

#[test]
fn a_pad_is_clamped_between_its_neighbours() {
    let mut a = anchors(&[(0, 100), (1000, 100), (2000, 100)]);
    let targets = [50, 900_000, 2050];
    spread_pass(&mut a, &targets, (0, 10_000), single(1.0), single(0.5), single(1.0), 10, &|p| p);
    assert!(a[1].centre <= a[2].centre, "never past the pad ahead");
    assert!(a[1].centre >= a[0].centre, "nor behind the one before");
}

#[test]
fn an_ideal_position_is_the_mean_of_the_bumps_served() {
    assert_eq!(ideal_position(&[100, 300]), Some(200));
    assert_eq!(ideal_position(&[100]), Some(100));
    assert_eq!(ideal_position(&[]), None, "a pad serving nothing has no preference");
    assert_eq!(ideal_position(&[0, 10, 800]), Some(270));
}

#[test]
fn an_unconstrained_pad_takes_a_crude_starting_point() {
    let prior = [500, 700, 900];
    assert_eq!(unconstrained_start(0, 4, &prior, (10, 990)), 10, "first takes the row start");
    assert_eq!(unconstrained_start(3, 4, &prior, (10, 990)), 990, "last takes the row end");
    assert_eq!(unconstrained_start(1, 4, &prior, (10, 990)), 500, "second copies the first");
    assert_eq!(unconstrained_start(2, 4, &prior, (10, 990)), 600, "then the average of two");
}

#[test]
fn a_violation_pools_both_pads_to_their_weighted_mean() {
    let mut p = vec![300, 100];
    let mut w = vec![single(1.0), single(1.0)];
    assert!(pool_adjacent_violators(&mut p, &mut w));
    assert_eq!(p, [200, 200]);
}

#[test]
fn the_weight_update_is_asymmetric_and_that_is_deliberate() {
    let mut p = vec![300, 100];
    let mut w = vec![single(1.0), single(1.0)];
    pool_adjacent_violators(&mut p, &mut w);
    let w: Vec<f32> = w.iter().map(|x| float(*x)).collect();
    assert_eq!(w, [3.0, 2.0], "not [2.0, 2.0], which the description would suggest");
}

#[test]
fn an_ordered_row_is_left_alone() {
    let mut p = vec![100, 200, 300];
    let mut w = vec![single(1.0); 3];
    assert!(!pool_adjacent_violators(&mut p, &mut w));
    assert_eq!(p, [100, 200, 300]);
}

#[test]
fn the_spring_holds_then_fades_then_stops() {
    assert_eq!(float(forces(0).0), f32::from_bits(SPRING_START), "full strength at the start");
    assert_eq!(float(forces(SPRING_FADE_FROM).0), f32::from_bits(SPRING_START), "still full AT the threshold");
    assert!(float(forces(SPRING_FADE_FROM + 1).0) < f32::from_bits(SPRING_START), "fading one step later");
    assert!(float(forces(SPRING_FADE_TO - 1).0) > 0.0, "a trace left just before the end");
    assert_eq!(float(forces(SPRING_FADE_TO).0), 0.0, "already nothing at the threshold");
    assert_eq!(float(forces(SPRING_FADE_TO + 1).0), 0.0, "and nothing after");
    assert_eq!(float(forces(0).1), float(forces(MAX_ITERATIONS).1));
}

#[test]
fn a_clear_position_is_left_where_it_is() {
    assert_eq!(nearest_legal(500, None, 50, (0, 1000)), 500);
}

#[test]
fn a_blocked_pad_steps_to_whichever_side_is_nearer() {
    assert_eq!(nearest_legal(450, Some((400, 600)), 50, (0, 1000)), 350);
    assert_eq!(nearest_legal(580, Some((400, 600)), 50, (0, 1000)), 650);
}

#[test]
fn at_the_rows_ends_only_one_way_out_exists() {
    assert_eq!(nearest_legal(20, Some((0, 100)), 50, (0, 1000)), 150);
    assert_eq!(nearest_legal(980, Some((900, 1000)), 50, (0, 1000)), 850);
}
