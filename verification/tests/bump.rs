use vyges_pad::bump::{bumps, is_bump_master, Array, DEFAULT_PREFIX};
use vyges_pad::Orient;

fn square_array() -> Array {
    Array {
        master: "DUMMY_BUMP".into(),
        prefix: DEFAULT_PREFIX.into(),
        origin: (400_000, 400_000),
        rows: 14,
        columns: 14,
        pitch: (400_000, 400_000),
    }
}

#[test]
fn the_array_reproduces_the_reference_golden() {
    let b = bumps(&square_array());
    assert_eq!(b.len(), 196, "14 x 14");
    let at = |n: &str| b.iter().find(|p| p.name == n).unwrap_or_else(|| panic!("no {n}"));
    assert_eq!((at("BUMP_0_0").x, at("BUMP_0_0").y), (400_000, 400_000));
    assert_eq!((at("BUMP_0_1").x, at("BUMP_0_1").y), (400_000, 800_000));
    assert_eq!((at("BUMP_0_10").x, at("BUMP_0_10").y), (400_000, 4_400_000));
    assert_eq!((at("BUMP_0_12").x, at("BUMP_0_12").y), (400_000, 5_200_000));
    assert!(b.iter().all(|p| p.orient == Orient::R0 && p.master == "DUMMY_BUMP"));
}

#[test]
fn the_name_is_column_first() {
    let a = Array { rows: 2, columns: 3, ..square_array() };
    let b = bumps(&a);
    let named: Vec<&str> = b.iter().map(|p| p.name.as_str()).collect();
    assert_eq!(named, vec!["BUMP_0_0", "BUMP_0_1", "BUMP_1_0", "BUMP_1_1", "BUMP_2_0", "BUMP_2_1"]);
    let at = |n: &str| b.iter().find(|p| p.name == n).unwrap();
    assert_eq!(at("BUMP_2_0").x, a.origin.0 + 2 * a.pitch.0);
    assert_eq!(at("BUMP_2_0").y, a.origin.1);
}

#[test]
fn the_two_pitches_are_independent() {
    let a = Array { rows: 2, columns: 2, pitch: (100, 7_000), ..square_array() };
    let b = bumps(&a);
    let at = |n: &str| b.iter().find(|p| p.name == n).unwrap();
    assert_eq!(at("BUMP_1_0").x - at("BUMP_0_0").x, 100, "x pitch");
    assert_eq!(at("BUMP_0_1").y - at("BUMP_0_0").y, 7_000, "y pitch");
}

#[test]
fn a_custom_prefix_replaces_the_default_entirely() {
    let a = Array { prefix: "PAD_BUMP_".into(), rows: 1, columns: 1, ..square_array() };
    assert_eq!(bumps(&a)[0].name, "PAD_BUMP_0_0");
}

#[test]
fn an_empty_or_negative_array_yields_nothing_rather_than_panicking() {
    for (r, c) in [(0, 5), (5, 0), (0, 0), (-3, 5)] {
        let a = Array { rows: r, columns: c, ..square_array() };
        assert!(bumps(&a).is_empty(), "{r} x {c}");
    }
}

#[test]
fn a_bump_master_is_recognised_in_either_spelling() {
    assert!(is_bump_master("COVER BUMP"));
    assert!(is_bump_master("COVER_BUMP"), "the enum spelling too");
    assert!(!is_bump_master("COVER"), "a plain cover cell is not a bump");
    assert!(!is_bump_master("PAD AREAIO"));
    assert!(!is_bump_master("CORE"));
}

#[test]
fn a_longer_bump_class_is_a_bump_too() {
    assert!(is_bump_master("COVER BUMP TOP"));
    assert!(is_bump_master("  COVER_BUMP_SMALL "));
    assert!(!is_bump_master("A COVER BUMP"));
    assert!(!is_bump_master("COVER BUM"));
    assert!(!is_bump_master(""));
}
