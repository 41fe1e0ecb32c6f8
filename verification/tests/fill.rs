use vyges_pad::fill::{fill_row, gaps, Filler, Unfilled};

fn filler(master: &str, width: i32) -> Filler {
    Filler { master: master.into(), width, overlapping: false }
}

fn index_by(site: i32) -> impl Fn(i32) -> i32 {
    move |p| p / site
}

#[test]
fn an_empty_row_is_one_gap() {
    assert_eq!(gaps((0, 1000), &[]), vec![(0, 1000)]);
}

#[test]
fn a_gap_starts_exactly_where_the_cell_before_it_ends() {
    assert_eq!(gaps((0, 1000), &[(100, 200)]), vec![(0, 100), (200, 1000)]);
}

#[test]
fn pads_at_the_ends_leave_no_gap_there() {
    assert_eq!(gaps((0, 1000), &[(0, 100)]), vec![(100, 1000)]);
    assert_eq!(gaps((0, 1000), &[(900, 1000)]), vec![(0, 900)]);
    assert_eq!(gaps((0, 1000), &[(0, 1000)]), Vec::new());
}

#[test]
fn touching_and_overlapping_pads_merge_into_one_run() {
    assert_eq!(gaps((0, 1000), &[(100, 200), (200, 300)]), vec![(0, 100), (300, 1000)]);
    assert_eq!(gaps((0, 1000), &[(100, 300), (150, 200)]), vec![(0, 100), (300, 1000)]);
}

#[test]
fn pads_are_taken_in_position_order_however_they_are_given() {
    let jumbled = gaps((0, 1000), &[(700, 800), (100, 200)]);
    assert_eq!(jumbled, vec![(0, 100), (200, 700), (800, 1000)]);
}

#[test]
fn a_row_is_packed_widest_filler_first() {
    let f = vec![filler("SMALL", 10), filler("BIG", 100)];
    let out =
        fill_row("IO_NORTH", (0, 1000), &[], 0, 10, &index_by(10), &f).unwrap();
    assert_eq!(out.len(), 10, "ten of the wide one, nothing left over");
    assert!(out.iter().all(|c| c.master == "BIG"));
    assert_eq!(out[0].name, "IO_FILL_IO_NORTH_0_0");
    assert_eq!(out[1].name, "IO_FILL_IO_NORTH_0_10", "named by site offset, not by count");
    assert_eq!((out[0].at, out[1].at), (0, 100));
}

#[test]
fn narrower_fillers_take_the_remainder() {
    let f = vec![filler("BIG", 100), filler("SMALL", 10)];
    let out = fill_row("IO_NORTH", (0, 250), &[], 0, 10, &index_by(10), &f).unwrap();
    let big = out.iter().filter(|c| c.master == "BIG").count();
    let small = out.iter().filter(|c| c.master == "SMALL").count();
    assert_eq!((big, small), (2, 5), "two wide, then five narrow for the last 50");
}

#[test]
fn each_gap_gets_its_own_group_number() {
    let f = vec![filler("F", 10)];
    let out = fill_row("IO_WEST", (0, 300), &[(100, 200)], 0, 10, &index_by(10), &f).unwrap();
    assert_eq!(out.first().unwrap().name, "IO_FILL_IO_WEST_0_0");
    assert!(out.iter().any(|c| c.name == "IO_FILL_IO_WEST_1_0"), "the second gap restarts at _0");
}

#[test]
fn the_second_gap_is_positioned_from_its_own_start() {
    let f = vec![filler("F", 100)];
    let out = fill_row("IO_WEST", (0, 300), &[(100, 200)], 0, 100, &index_by(100), &f).unwrap();
    assert_eq!(out.iter().map(|c| c.at).collect::<Vec<_>>(), vec![0, 200]);
}

#[test]
fn a_gap_that_is_not_a_whole_number_of_sites_is_refused() {
    let f = vec![filler("F", 10)];
    let err = fill_row("IO_NORTH", (0, 1000), &[(100, 195)], 0, 10, &index_by(10), &f)
        .unwrap_err();
    assert!(matches!(err, Unfilled::Ragged { .. }), "got {err:?}");
}

#[test]
fn a_gap_the_fillers_cannot_close_is_refused_rather_than_left_open() {
    let f = vec![filler("WIDE", 300)];
    let err =
        fill_row("IO_NORTH", (0, 100), &[], 0, 10, &index_by(10), &f).unwrap_err();
    assert!(matches!(err, Unfilled::Short { .. }), "got {err:?}");
}

#[test]
fn an_overlapping_filler_keeps_going_past_a_full_gap() {
    let f = vec![Filler { master: "OVER".into(), width: 300, overlapping: true }];
    let out = fill_row("IO_NORTH", (0, 100), &[], 0, 10, &index_by(10), &f).unwrap();
    assert_eq!(out.len(), 1, "placed despite being wider than the gap");
    assert!(out[0].overlapping);
}

#[test]
fn equal_widths_keep_the_order_they_were_given() {
    let f = vec![filler("FIRST", 10), filler("SECOND", 10)];
    let out = fill_row("IO_NORTH", (0, 10), &[], 0, 10, &index_by(10), &f).unwrap();
    assert_eq!(out[0].master, "FIRST");
}

#[test]
fn a_filler_narrower_than_a_site_is_passed_over_rather_than_looping_forever() {
    let f = vec![filler("TINY", 4), filler("EXACT", 10)];
    let out = fill_row("IO_NORTH", (0, 20), &[], 0, 10, &index_by(10), &f).unwrap();
    assert!(out.iter().all(|c| c.master == "EXACT"));
}
