use trx_engine::ast::{NamedDiagram, Node, Project, ShapeKind, SqlField};
use trx_engine::render::{
    bit_width, connection_stroke, fk_badge, last_index_of, last_of_each_id, name_indent, resolve_shape, xy_data_pairs,
};
use trx_engine::textmap::TextMap;

fn node_with_shape(shape: Option<&str>, kind: ShapeKind) -> Node {
    let mut attributes = TextMap::new();
    if let Some(s) = shape {
        attributes.insert("shape".to_string(), s.to_string());
    }
    Node { id: "n".to_string(), class: None, label: None, kind, properties: TextMap::new(), attributes }
}

#[test]
fn shape_attribute_picks_the_shape() {
    let cases = [
        ("circle", ShapeKind::Ellipse),
        ("ellipse", ShapeKind::Ellipse),
        ("diamond", ShapeKind::Diamond),
        ("hexagon", ShapeKind::Hexagon),
        ("cloud", ShapeKind::Cloud),
        ("cylinder", ShapeKind::Cylinder),
        ("database", ShapeKind::Cylinder),
        ("parallelogram", ShapeKind::Parallelogram),
        ("triangle", ShapeKind::Triangle),
        ("rounded", ShapeKind::RoundedRectangle),
    ];
    for (name, kind) in cases {
        assert_eq!(resolve_shape(&node_with_shape(Some(name), ShapeKind::Box)), kind);
    }
    assert_eq!(resolve_shape(&node_with_shape(Some("blob"), ShapeKind::Server)), ShapeKind::Server);
    assert_eq!(resolve_shape(&node_with_shape(None, ShapeKind::Box)), ShapeKind::Box);
}

#[test]
fn arrows_pick_the_stroke() {
    assert_eq!(connection_stroke("=="), "stroke-width=\"4\" stroke=\"#333\"");
    assert_eq!(connection_stroke(">>"), "stroke-dasharray=\"5,5\" stroke=\"#666\"");
    assert_eq!(connection_stroke("->"), "stroke=\"#999\"");
}

#[test]
fn bit_widths() {
    assert_eq!(bit_width("0..15"), 16);
    assert_eq!(bit_width(" 16 - 31 "), 16);
    assert_eq!(bit_width("8..8"), 1);
    assert_eq!(bit_width("9..3"), 1);
    assert_eq!(bit_width("7"), 1);
    assert_eq!(bit_width("+7"), 1);
    assert_eq!(bit_width("x..y"), 16);
    assert_eq!(bit_width("a-b"), 16);
    assert_eq!(bit_width("byte"), 16);
    assert_eq!(bit_width(""), 16);
    assert_eq!(bit_width("0..4294967296"), 16);
    assert_eq!(bit_width("0..4294967295"), 4294967296);
    assert_eq!(bit_width("1..2..3"), 16);
}

fn diagram(name: &str, scenario: Option<&str>) -> NamedDiagram {
    let mut d = NamedDiagram::new(name.to_string());
    d.scenario = scenario.map(|s| s.to_string());
    d
}

#[test]
fn scenario_filter_keeps_matching_and_unscoped_diagrams() {
    let mut p = Project::empty();
    p.diagrams.push(diagram("a", Some("happy")));
    p.diagrams.push(diagram("b", None));
    p.diagrams.push(diagram("c", Some("sad")));
    p.diagrams.push(diagram("d", Some("happy")));
    p.retain_scenario("happy");
    let names: Vec<&str> = p.diagrams.iter().map(|d| d.name.as_str()).collect();
    assert_eq!(names, vec!["a", "b", "d"]);
}

#[test]
fn xy_data_splits_words_at_the_first_comma() {
    let pairs = xy_data_pairs("  0,1 2,4\t  skip 3,9,1\n5, ");
    let expected: Vec<(String, String)> = vec![
        ("0".to_string(), "1".to_string()),
        ("2".to_string(), "4".to_string()),
        ("3".to_string(), "9,1".to_string()),
        ("5".to_string(), "".to_string()),
    ];
    assert_eq!(pairs, expected);
    assert!(xy_data_pairs("").is_empty());
    assert!(xy_data_pairs("   no commas here ").is_empty());
}

fn field(is_pk: bool, is_fk: bool, fk_ref: Option<&str>) -> SqlField {
    SqlField {
        name: "id".to_string(),
        field_type: "uuid".to_string(),
        is_pk,
        is_fk,
        fk_ref: fk_ref.map(|r| r.to_string()),
    }
}

#[test]
fn sql_field_badges() {
    assert_eq!(fk_badge(&field(false, true, Some("Users"))), Some("Users".to_string()));
    assert_eq!(fk_badge(&field(true, true, None)), Some("FK".to_string()));
    assert_eq!(fk_badge(&field(true, false, Some("Users"))), None);
    assert_eq!(name_indent(&field(false, false, None)), 10);
    assert_eq!(name_indent(&field(true, false, None)), 26);
    assert_eq!(name_indent(&field(false, true, None)), 36);
    assert_eq!(name_indent(&field(true, true, None)), 56);
}

#[test]
fn the_last_node_of_each_id_is_drawn() {
    let ids: Vec<String> = ["A", "B", "A", "C", "B"].iter().map(|s| s.to_string()).collect();
    assert_eq!(last_of_each_id(&ids), vec![2, 3, 4]);
    assert_eq!(last_index_of(&ids, "A"), Some(2));
    assert_eq!(last_index_of(&ids, "C"), Some(3));
    assert_eq!(last_index_of(&ids, "Z"), None);
    assert_eq!(last_of_each_id(&Vec::new()), Vec::<usize>::new());
}
