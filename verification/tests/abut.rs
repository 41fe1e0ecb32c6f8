use vyges_pad::abut::{
    connect_by_abutment, special_sig_type, touches, touching_terms, PadInst, Plan, Terminal,
};
use vyges_pad::geom::Rect;

fn term(name: &str, r: Rect, net: Option<&str>) -> Terminal {
    Terminal {
        name: name.into(),
        shapes: vec![(1, r)],
        net: net.map(str::to_string),
        supply: false,
    }
}

fn inst(name: &str, bbox: Rect, terms: Vec<Terminal>) -> PadInst {
    PadInst { name: name.into(), bbox, terms }
}

fn abutting(net_a: Option<&str>, net_b: Option<&str>) -> Vec<PadInst> {
    vec![
        inst("A", (0, 0, 100, 50), vec![term("VDD", (90, 0, 100, 50), net_a)]),
        inst("B", (100, 0, 200, 50), vec![term("VDD", (100, 0, 110, 50), net_b)]),
    ]
}

#[test]
fn a_shared_edge_is_a_connection() {
    assert!(touches((0, 0, 100, 50), (100, 0, 200, 50)), "edge to edge");
    assert!(touches((0, 0, 100, 50), (100, 50, 200, 100)), "corner to corner");
    assert!(!touches((0, 0, 100, 50), (101, 0, 200, 50)), "one unit apart is apart");
}

#[test]
fn terminals_only_meet_on_the_same_layer() {
    let mut a = inst("A", (0, 0, 100, 50), vec![term("VDD", (90, 0, 100, 50), None)]);
    let b = inst("B", (100, 0, 200, 50), vec![term("VDD", (100, 0, 110, 50), None)]);
    assert_eq!(touching_terms(&a, &b), vec![(0, 0)]);
    a.terms[0].shapes = vec![(2, (90, 0, 100, 50))];
    assert!(touching_terms(&a, &b).is_empty(), "same place, different layer");
}

#[test]
fn two_unconnected_terminals_get_a_new_net_named_after_the_first() {
    let plan = connect_by_abutment(&abutting(None, None), &|_| 0).unwrap();
    assert_eq!(plan.create, vec!["A.VDD_RING"]);
    assert_eq!(plan.connect.len(), 2);
    assert!(plan.destroy.is_empty());
    assert!(plan.special.is_empty(), "a lone pair is an ordinary net");
}

#[test]
fn a_new_net_becomes_special_once_a_third_terminal_joins_it() {
    let insts = vec![
        inst("A", (0, 0, 100, 50), vec![term("VDD", (90, 0, 100, 50), None)]),
        inst("B", (100, 0, 200, 50), vec![term("VDD", (100, 0, 200, 50), None)]),
        inst("C", (200, 0, 300, 50), vec![term("VDD", (200, 0, 210, 50), None)]),
    ];
    let plan = connect_by_abutment(&insts, &|_| 0).unwrap();
    assert_eq!(plan.create, vec!["A.VDD_RING"]);
    assert_eq!(plan.special, vec!["A.VDD_RING"], "C joining made it special");
}

#[test]
fn an_unconnected_terminal_joins_its_neighbours_net() {
    let plan = connect_by_abutment(&abutting(Some("VDD"), None), &|_| 4).unwrap();
    assert!(plan.create.is_empty(), "no new net needed");
    assert_eq!(plan.connect, vec![((1, 0), "VDD".to_string())]);
    assert_eq!(plan.special, vec!["VDD"]);
}

#[test]
fn a_net_holding_one_terminal_is_destroyed_before_anything_is_joined() {
    let plan = connect_by_abutment(&abutting(Some("VDD"), Some("stray")), &|n| {
        if n == "stray" {
            1
        } else {
            4
        }
    })
    .unwrap();
    assert_eq!(plan.destroy, vec!["stray"]);
    assert_eq!(plan.connect, vec![((1, 0), "VDD".to_string())]);
}

#[test]
fn two_real_nets_touching_is_a_conflict_rather_than_a_silent_merge() {
    let err = connect_by_abutment(&abutting(Some("VDD"), Some("VSS")), &|_| 4).unwrap_err();
    assert_eq!((err.net_a.as_str(), err.net_b.as_str()), ("VDD", "VSS"));
}

#[test]
fn a_chain_of_pads_ends_up_on_one_net() {
    let insts = vec![
        inst("A", (0, 0, 100, 50), vec![term("VDD", (90, 0, 100, 50), Some("VDD"))]),
        inst("B", (100, 0, 200, 50), vec![term("VDD", (100, 0, 200, 50), None)]),
        inst("C", (200, 0, 300, 50), vec![term("VDD", (200, 0, 210, 50), None)]),
    ];
    let plan = connect_by_abutment(&insts, &|_| 4).unwrap();
    assert!(plan.create.is_empty());
    let nets: Vec<&str> = plan.connect.iter().map(|(_, n)| n.as_str()).collect();
    assert_eq!(nets, vec!["VDD", "VDD"], "both joined the existing net");
}

#[test]
fn pads_that_do_not_touch_imply_nothing() {
    let insts = vec![
        inst("A", (0, 0, 100, 50), vec![term("VDD", (0, 0, 100, 50), None)]),
        inst("B", (200, 0, 300, 50), vec![term("VDD", (200, 0, 300, 50), None)]),
    ];
    assert_eq!(connect_by_abutment(&insts, &|_| 0).unwrap(), Plan::default());
}

#[test]
fn a_supply_terminal_decides_the_signal_type() {
    assert_eq!(special_sig_type("SIGNAL", &[(false, "SIGNAL".into())]), "SIGNAL");
    assert_eq!(special_sig_type("SIGNAL", &[(true, "POWER".into())]), "POWER");
    assert_eq!(
        special_sig_type("SIGNAL", &[(true, "POWER".into()), (true, "GROUND".into())]),
        "GROUND"
    );
}
