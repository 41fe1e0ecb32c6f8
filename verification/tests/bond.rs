use vyges_pad::bond::{bond_shape, is_bond_master, matching, pin_shape, place};
use vyges_pad::Orient;

#[test]
fn a_bond_master_is_a_plain_cover_cell() {
    assert!(is_bond_master("COVER"));
    assert!(!is_bond_master("COVER BUMP"), "a bump is not a bond pad");
    assert!(!is_bond_master("PAD"));
}

#[test]
fn the_bond_shape_is_the_highest_routing_layer() {
    let pins = vec![
        ("metal1".to_string(), 1, (0, 0, 10, 10)),
        ("metal10".to_string(), 10, (-70, -35, 70, 35)),
        ("metal5".to_string(), 5, (0, 0, 20, 20)),
    ];
    assert_eq!(bond_shape(&pins), Some(("metal10".into(), (-70, -35, 70, 35))));
}

#[test]
fn a_shape_with_no_routing_level_is_not_metal_and_is_skipped() {
    let pins = vec![
        ("OVERLAP".to_string(), 0, (0, 0, 99, 99)),
        ("metal1".to_string(), 1, (0, 0, 10, 10)),
    ];
    assert_eq!(bond_shape(&pins), Some(("metal1".into(), (0, 0, 10, 10))));
    assert_eq!(bond_shape(&pins[..1]), None, "nothing routable at all");
}

#[test]
fn a_tie_on_the_top_layer_keeps_the_first_shape() {
    let pins = vec![
        ("metal10".to_string(), 10, (0, 0, 10, 10)),
        ("metal10".to_string(), 10, (50, 50, 60, 60)),
    ];
    assert_eq!(bond_shape(&pins), Some(("metal10".into(), (0, 0, 10, 10))));
}

#[test]
fn the_offset_turns_with_the_pad() {
    let b = place("u_pad", (1000, 2000), Orient::R0, "PAD", (-10, 150), Orient::R0, "IO_BOND_");
    assert_eq!(b.origin, (990, 2150));
    assert_eq!(b.name, "IO_BOND_u_pad");
    assert_eq!(b.orient, Orient::R0);
    let t = place("u_pad", (1000, 2000), Orient::R90, "PAD", (-10, 150), Orient::R0, "IO_BOND_");
    assert_ne!(t.origin, b.origin, "the same offset lands elsewhere");
    assert_eq!(t.orient, Orient::R90, "and the bond pad faces the same way as the pad");
}

#[test]
fn the_requested_rotation_composes_onto_the_pads_own() {
    let b = place("p", (0, 0), Orient::MX, "PAD", (0, 0), Orient::R90, "B_");
    assert_eq!(b.orient, Orient::MX.concat(Orient::R90));
}

#[test]
fn the_bond_shape_turns_with_the_bond_pad() {
    let r = (-70, -35, 70, 35);
    assert_eq!(pin_shape(r, Orient::R0, (1000, 2000)), (930, 1965, 1070, 2035));
    assert_eq!(pin_shape(r, Orient::R90, (1000, 2000)), (965, 1930, 1035, 2070));
    assert_eq!(pin_shape(r, Orient::MY, (1000, 2000)), (930, 1965, 1070, 2035));
}

#[test]
fn the_bond_shape_is_not_normalised_against_the_master_size() {
    assert_eq!(pin_shape((-10, -10, 10, 10), Orient::R0, (0, 0)), (-10, -10, 10, 10));
}

#[test]
fn patterns_select_by_star_and_question_mark_only() {
    let names: Vec<String> =
        ["IO_EAST_SIDE", "IO_WEST_SIDE", "u_pad_inner", "u_pad_outer", "other"]
            .iter()
            .map(|s| s.to_string())
            .collect();
    let pick = |p: &str| {
        matching(&names, &[p.to_string()]).iter().map(|s| s.as_str()).collect::<Vec<_>>()
    };
    assert_eq!(pick("IO_*"), vec!["IO_EAST_SIDE", "IO_WEST_SIDE"]);
    assert_eq!(pick("u_*_inner"), vec!["u_pad_inner"]);
    assert_eq!(pick("*"), names.iter().map(|s| s.as_str()).collect::<Vec<_>>());
    assert_eq!(pick("other"), vec!["other"]);
    assert!(pick("IO_?").is_empty());
}

#[test]
fn a_bracket_is_an_ordinary_character_not_a_class() {
    let names: Vec<String> =
        ["req_msg[0]", "req_msg0"].iter().map(|s| s.to_string()).collect();
    let picked = matching(&names, &["req_msg[0]".to_string()]);
    assert_eq!(picked, vec!["req_msg[0]"]);
}

#[test]
fn several_patterns_select_the_union_once_each() {
    let names: Vec<String> =
        ["a1", "a2", "b1"].iter().map(|s| s.to_string()).collect();
    let picked = matching(&names, &["a*".to_string(), "*1".to_string()]);
    assert_eq!(picked, vec!["a1", "a2", "b1"], "no duplicates, input order");
}
