use vyges_pad::options::{parse_opts, rotation};
use vyges_pad::report::report_json;
use vyges_pad::{Orient, Row, RowDir};

#[test]
fn the_three_sites_and_the_offset_are_all_required() {
    assert!(parse_opts(&[]).is_err(), "a .odb is required");
    let o = parse_opts(&["d.odb".to_string()]).unwrap();
    for k in ["horizontal-site", "vertical-site", "corner-site", "offset"] {
        assert!(o.need(k).is_err(), "{k} should be required");
    }
    let dangling = ["d.odb", "--offset"].map(String::from);
    assert!(parse_opts(&dangling).unwrap_err().contains("--offset"));
    assert!(parse_opts(&["-x".to_string()]).unwrap_err().contains("unknown"));
}

#[test]
fn a_rotation_defaults_to_none_and_a_bad_one_is_refused() {
    let o = parse_opts(&["d.odb".to_string()]).unwrap();
    assert_eq!(rotation(&o, "rotation-corner").unwrap(), Orient::R0);
    let set = parse_opts(&["d.odb", "--rotation-vertical", "MXR90"].map(String::from)).unwrap();
    assert_eq!(rotation(&set, "rotation-vertical").unwrap(), Orient::MXR90);
    let bad = parse_opts(&["d.odb", "--rotation-vertical", "sideways"].map(String::from)).unwrap();
    assert!(rotation(&bad, "rotation-vertical").is_err());
}

#[test]
fn the_report_states_refused_when_an_edge_holds_no_sites() {
    let row = |sites| Row {
        name: "IO_NORTH".into(),
        site: "S".into(),
        x: 0,
        y: 0,
        orient: Orient::R0,
        dir: RowDir::Horizontal,
        sites,
        pitch: 10,
    };
    let ok = [row(5)];
    assert!(report_json(&ok, &[], 1000).contains("\"status\": \"ok\""));
    let bad = [row(0)];
    let empty: Vec<&Row> = bad.iter().collect();
    assert!(report_json(&bad, &empty, 1000).contains("\"status\": \"refused\""));
}
