use vyges_pad::clearance::{
    intersects, outline_of, refuse, transform, Blocker, Reason, Shape,
};
use vyges_pad::geom::Rect;
use vyges_pad::Orient;

fn shape(layer: &str, rect: Rect) -> Shape {
    Shape { layer: layer.into(), rect, net: None }
}

fn fixed(name: &str, bbox: Rect) -> Blocker {
    Blocker { name: name.into(), bbox, outline: vec![], by_box: true, shapes: vec![] }
}

fn no_spacing(_: &str) -> i32 {
    0
}

#[test]
fn clearance_touching_is_not_overlapping() {
    assert!(intersects((0, 0, 10, 10), (5, 5, 15, 15)));
    assert!(!intersects((0, 0, 10, 10), (10, 0, 20, 10)), "abutting");
    assert!(!intersects((0, 0, 10, 10), (20, 20, 30, 30)));
}

#[test]
fn a_fixed_instance_in_the_way_refuses_the_placement() {
    let b = [fixed("OVERLAP", (80, 80, 120, 120))];
    assert_eq!(
        refuse("C", (70, 70, 350, 350), &[], &[], &b, &[], &no_spacing).map(|r| r.reason),
        Some(Reason::Instance("OVERLAP".into()))
    );
    assert_eq!(refuse("C", (500, 500, 600, 600), &[], &[], &b, &[], &no_spacing), None);
}

#[test]
fn a_cell_never_blocks_itself() {
    let b = [fixed("C", (0, 0, 100, 100))];
    assert_eq!(refuse("C", (0, 0, 100, 100), &[], &[], &b, &[], &no_spacing), None);
}

#[test]
fn an_outline_narrows_a_conflict_the_boxes_would_have_called() {
    let b = [fixed("IN_THE_NOTCH", (10, 10, 40, 40))];
    let cell_box = (0, 0, 200, 200);
    assert!(refuse("C", cell_box, &[], &[], &b, &[], &no_spacing).is_some(), "by box, refused");

    let l_shape = [(0, 50, 200, 200), (50, 0, 200, 200)];
    assert_eq!(
        refuse("C", cell_box, &l_shape, &[], &b, &[], &no_spacing),
        None,
        "by outline, allowed"
    );
}

#[test]
fn an_outline_on_the_blocker_narrows_it_too() {
    let mut b = fixed("HOLLOW", (0, 0, 200, 200));
    b.outline = vec![(0, 0, 20, 200)];
    let blockers = [b];
    assert_eq!(refuse("C", (100, 100, 150, 150), &[], &[], &blockers, &[], &no_spacing), None);
    assert_eq!(
        refuse("C", (10, 100, 15, 150), &[], &[], &blockers, &[], &no_spacing).map(|r| r.reason),
        Some(Reason::Instance("HOLLOW".into()))
    );
}

#[test]
fn no_outline_is_not_an_empty_outline() {
    let b = [fixed("SOLID", (0, 0, 100, 100))];
    assert!(refuse("C", (50, 50, 150, 150), &[], &[], &b, &[], &no_spacing).is_some());
}

#[test]
fn metal_conflicts_only_on_a_shared_layer() {
    let bump = Blocker {
        name: "BUMP".into(),
        bbox: (0, 0, 100, 100),
        outline: vec![],
        by_box: false,
        shapes: vec![shape("metal10", (10, 10, 90, 90))],
    };
    let blockers = [bump];

    let on_m4 = [shape("metal4", (20, 20, 80, 80))];
    assert_eq!(refuse("C", (0, 0, 100, 100), &[], &on_m4, &blockers, &[], &no_spacing), None,
               "different layers cannot conflict");

    let on_m10 = [shape("metal10", (20, 20, 80, 80))];
    assert_eq!(
        refuse("C", (0, 0, 100, 100), &[], &on_m10, &blockers, &[], &no_spacing).map(|r| r.reason),
        Some(Reason::Layer { blocker: "BUMP".into(), layer: "metal10".into() })
    );
}

#[test]
fn the_moving_cells_shapes_are_grown_by_the_layers_spacing() {
    let other = Blocker {
        name: "OTHER".into(),
        bbox: (0, 0, 0, 0),
        outline: vec![],
        by_box: false,
        shapes: vec![shape("metal1", (100, 0, 200, 100))],
    };
    let blockers = [other];
    let cell = [shape("metal1", (0, 0, 90, 100))];
    assert_eq!(refuse("C", (0, 0, 90, 100), &[], &cell, &blockers, &[], &no_spacing), None,
               "ten apart, and no spacing required");
    assert!(
        refuse("C", (0, 0, 90, 100), &[], &cell, &blockers, &[], &|_| 20).is_some(),
        "ten apart, twenty required"
    );
}

#[test]
fn shapes_on_the_same_net_may_touch() {
    let mk = |net: Option<&str>| Shape {
        layer: "metal1".into(),
        rect: (0, 0, 100, 100),
        net: net.map(str::to_string),
    };
    let same = [Blocker {
        name: "N".into(),
        bbox: (0, 0, 0, 0),
        outline: vec![],
        by_box: false,
        shapes: vec![mk(Some("VDD"))],
    }];
    assert_eq!(refuse("C", (0, 0, 1, 1), &[], &[mk(Some("VDD"))], &same, &[], &no_spacing), None);
    assert!(refuse("C", (0, 0, 1, 1), &[], &[mk(Some("VSS"))], &same, &[], &no_spacing).is_some());
    assert!(refuse("C", (0, 0, 1, 1), &[], &[mk(None)], &same, &[], &no_spacing).is_some());
    let unconnected = [Blocker { shapes: vec![mk(None)], ..same[0].clone() }];
    assert!(
        refuse("C", (0, 0, 1, 1), &[], &[mk(None)], &unconnected, &[], &no_spacing).is_some(),
        "both unconnected still conflict"
    );
}

#[test]
fn two_cells_flush_against_each_other_are_legal() {
    let flush = (100, 0, 200, 100);
    let by_box_only = vec![Blocker {
        name: "LEFT".into(), bbox: (0, 0, 100, 100), outline: vec![],
        by_box: true, shapes: vec![],
    }];
    assert_eq!(
        refuse("R", flush, &[], &[shape("metal1", flush)], &by_box_only, &[], &|_| 10),
        None,
        "flush against an ordinary cell is legal"
    );
    let by_layer = vec![Blocker {
        name: "BUMP".into(), bbox: (0, 0, 100, 100), outline: vec![],
        by_box: false, shapes: vec![shape("metal1", (0, 0, 100, 100))],
    }];
    assert!(
        refuse("R", flush, &[], &[shape("metal1", flush)], &by_layer, &[], &|_| 10).is_some(),
        "the same geometry as a cover cell is too close"
    );
}

#[test]
fn a_shape_moves_with_the_cell_that_owns_it() {
    let master = (100, 40);
    let s = (0, 0, 10, 40);
    assert_eq!(transform(s, master, Orient::R0, (1000, 2000)), (1000, 2000, 1010, 2040));
    assert_eq!(transform(s, master, Orient::MY, (1000, 2000)), (1090, 2000, 1100, 2040));
    let r = transform(s, master, Orient::R90, (0, 0));
    assert_eq!(r, (0, 0, 40, 10));
}

#[test]
fn an_outline_is_the_overlap_layer_shapes_and_nothing_else() {
    let shapes = [shape("metal4", (0, 0, 10, 10)), shape("OVERLAP", (20, 20, 30, 30))];
    let is_overlap = |l: &str| l == "OVERLAP";
    assert_eq!(outline_of(&shapes, &is_overlap), vec![(20, 20, 30, 30)]);
    assert!(outline_of(&shapes[..1], &is_overlap).is_empty(), "no outline declared");
}
