use vyges_pad::assign::{assign, top_shape, BumpTerm, Refused};
use vyges_pad::geom::Rect;

fn term(name: &str, net: Option<&str>, shapes: &[(&str, i32, Rect)]) -> BumpTerm {
    BumpTerm {
        name: name.into(),
        net: net.map(str::to_string),
        shapes: shapes.iter().map(|(l, v, r)| (l.to_string(), *v, *r)).collect(),
    }
}

#[test]
fn every_bump_terminal_not_already_on_the_net_is_connected() {
    let t = vec![
        term("PAD", None, &[("m10", 10, (0, 0, 100, 100))]),
        term("PAD2", Some("VDD"), &[("m10", 10, (0, 0, 100, 100))]),
        term("PAD3", Some("other"), &[("m10", 10, (0, 0, 100, 100))]),
    ];
    let a = assign(&t, "VDD", (0, 0, 100, 100), None).unwrap();
    assert_eq!(a.connect, vec!["PAD", "PAD3"], "PAD2 is already there");
}

#[test]
fn a_free_pad_terminal_joins_the_net() {
    let t = vec![term("PAD", None, &[("m10", 10, (0, 0, 10, 10))])];
    let a = assign(&t, "VDD", (0, 0, 10, 10), Some(("u_pad/PAD", None))).unwrap();
    assert_eq!(a.terminal.as_deref(), Some("u_pad/PAD"));
}

#[test]
fn a_pad_terminal_already_on_the_net_needs_no_second_connection() {
    let t = vec![term("PAD", None, &[("m10", 10, (0, 0, 10, 10))])];
    let a = assign(&t, "VDD", (0, 0, 10, 10), Some(("u_pad/PAD", Some("VDD")))).unwrap();
    assert_eq!(a.terminal, None);
}

#[test]
fn a_pad_terminal_on_another_net_is_refused_rather_than_rewired() {
    let t = vec![term("PAD", None, &[("m10", 10, (0, 0, 10, 10))])];
    let e = assign(&t, "VDD", (0, 0, 10, 10), Some(("u_pad/PAD", Some("VSS")))).unwrap_err();
    assert_eq!(e, Refused::WrongNet { terminal: "u_pad/PAD".into(), net: "VSS".into() });
}

#[test]
fn the_highest_layer_wins() {
    let t = vec![term(
        "PAD",
        None,
        &[("m5", 5, (0, 0, 10, 10)), ("m10", 10, (20, 20, 30, 30))],
    )];
    let (layer, _) = top_shape(&t, (0, 0, 100, 100)).unwrap();
    assert_eq!(layer, "m10");
}

#[test]
fn a_lower_layer_after_a_higher_one_is_ignored() {
    let t = vec![term(
        "PAD",
        None,
        &[("m10", 10, (20, 20, 30, 30)), ("m5", 5, (0, 0, 10, 10))],
    )];
    let (layer, rect) = top_shape(&t, (25, 25, 25, 25)).unwrap();
    assert_eq!((layer.as_str(), rect), ("m10", (20, 20, 30, 30)));
}

#[test]
fn shapes_gathered_from_a_lower_layer_are_kept_when_a_higher_one_arrives() {
    let t = vec![term(
        "PAD",
        None,
        &[("m5", 5, (0, 0, 100, 100)), ("m10", 10, (200, 200, 300, 300))],
    )];
    let (layer, rect) = top_shape(&t, (0, 0, 100, 100)).unwrap();
    assert_eq!(layer, "m10", "the layer is the highest seen");
    assert_eq!(rect, (0, 0, 100, 100), "but the shape is the one over the centre");
}

#[test]
fn with_nothing_over_the_centre_the_first_shape_in_order_is_used() {
    let t = vec![term(
        "PAD",
        None,
        &[("m10", 10, (500, 500, 600, 600)), ("m10", 10, (200, 200, 300, 300))],
    )];
    let (_, rect) = top_shape(&t, (0, 0, 10, 10)).unwrap();
    assert_eq!(rect, (200, 200, 300, 300), "lowest by (xlo, ylo, xhi, yhi)");
}

#[test]
fn with_several_shapes_over_the_centre_the_last_in_order_is_used() {
    let t = vec![term(
        "PAD",
        None,
        &[("m10", 10, (0, 0, 100, 100)), ("m10", 10, (10, 10, 90, 90))],
    )];
    let (_, rect) = top_shape(&t, (0, 0, 100, 100)).unwrap();
    assert_eq!(rect, (10, 10, 90, 90));
}

#[test]
fn shapes_from_both_terminals_of_a_two_pin_bump_are_gathered() {
    let t = vec![
        term("PAD1", None, &[("m10", 10, (0, 0, 40, 40))]),
        term("PAD2", None, &[("m10", 10, (60, 60, 100, 100))]),
    ];
    let a = assign(&t, "VDD", (0, 0, 100, 100), None).unwrap();
    assert_eq!(a.connect.len(), 2);
    assert_eq!(a.bterm.unwrap().1, (0, 0, 40, 40));
}

#[test]
fn a_bump_with_no_shapes_makes_no_terminal() {
    let t = vec![term("PAD", None, &[])];
    assert_eq!(assign(&t, "VDD", (0, 0, 10, 10), None).unwrap().bterm, None);
}
