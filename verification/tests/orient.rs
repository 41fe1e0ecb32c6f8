use vyges_pad::Orient;

#[test]
fn every_orientation_is_a_distinct_symmetry() {
    let mut seen: Vec<(i32, i32)> = Orient::ALL.iter().map(|o| o.apply(1, 2)).collect();
    seen.sort_unstable();
    seen.dedup();
    assert_eq!(seen.len(), 8);
}

#[test]
fn identity_composes_to_nothing_on_either_side() {
    for o in Orient::ALL {
        assert_eq!(o.concat(Orient::R0), o, "{o:?} then R0");
        assert_eq!(Orient::R0.concat(o), o, "R0 then {o:?}");
    }
}

#[test]
fn composition_applies_the_first_argument_first() {
    assert_eq!(Orient::MXR90.concat(Orient::MY), Orient::R90, "the reading that the ring requires");
    assert_ne!(Orient::MXR90.concat(Orient::MY), Orient::R270, "and the one it rules out");

    assert_eq!(Orient::MY.concat(Orient::MX), Orient::R180, "north edge under a vertical rotation");
    assert_eq!(Orient::MY.concat(Orient::R0), Orient::MY, "south edge under the same rotation");
}

#[test]
fn flipping_matches_what_the_ring_goldens_require() {
    assert_eq!(Orient::MXR90.flip_y(), Orient::R90);
    assert_eq!(Orient::R0.flip_y(), Orient::MY);
    assert_eq!(Orient::R0.flip_x(), Orient::MX);
}

#[test]
fn flipping_twice_about_the_same_axis_is_a_no_op() {
    for o in Orient::ALL {
        assert_eq!(o.flip_x().flip_x(), o, "{o:?}");
        assert_eq!(o.flip_y().flip_y(), o, "{o:?}");
    }
}

#[test]
fn composition_is_associative_and_every_element_has_an_inverse() {
    for a in Orient::ALL {
        for b in Orient::ALL {
            for c in Orient::ALL {
                assert_eq!(a.concat(b).concat(c), a.concat(b.concat(c)), "{a:?} {b:?} {c:?}");
            }
        }
        assert!(
            Orient::ALL.iter().any(|&i| a.concat(i) == Orient::R0),
            "{a:?} has no inverse"
        );
    }
}

#[test]
fn the_def_spellings_round_trip() {
    let pairs = [
        (Orient::R0, "N"),
        (Orient::R90, "W"),
        (Orient::R180, "S"),
        (Orient::R270, "E"),
        (Orient::MY, "FN"),
        (Orient::MYR90, "FE"),
        (Orient::MX, "FS"),
        (Orient::MXR90, "FW"),
    ];
    for (o, d) in pairs {
        assert_eq!(o.def(), d, "{o:?}");
        assert_eq!(Orient::parse(&format!("{o:?}")), Some(o));
    }
    assert_eq!(Orient::parse("NONSENSE"), None);
}
