use trx_engine::ast::Expression;
use trx_engine::compiler::{compile, compile_parsed, CompileError};
use trx_engine::evaluator::{plan, Step};
use trx_engine::parser::error::ParseError;
use trx_engine::parser::expressions::get_operator_precedence;
use trx_engine::parser::grammar::TrxParser;
use trx_engine::parser::parse;
use trx_engine::parser::syntax::Rule;

#[test]
fn test_math_torture() {
    let mut code = String::new();
    code.push_str("let v0 = 1.0\n");
    for i in 1..=100 {
        let prev = i - 1;
        code.push_str(&format!(
            "let v{} = Math.round(v{} * 1.05 + Math.sin(v{}) - Math.cos(v{}))\n",
            i, prev, prev, prev
        ));
    }
    code.push_str("# MathTorture\n");
    code.push_str("  layer G1 {\n");
    for i in 2..=10 {
        code.push_str(&format!("    layer G{} {{\n", i));
    }
    code.push_str("      N0 { width: v100 }\n");
    for _ in 2..=10 {
        code.push_str("    }\n");
    }
    code.push_str("  }\n");

    let project = parse(&code).expect("Parse failed");
    assert_eq!(project.variables.len(), 101);
    for i in 0..=100 {
        let name = format!("v{}", i);
        let expr = project.variables.get(&name).expect("variable");
        let steps = plan(expr);
        assert!(
            !steps.iter().any(|s| matches!(s, Step::Fail(_) | Step::TooDeep)),
            "Eval failed"
        );
    }
    let d = &project.diagrams[0];
    assert_eq!(d.name, "MathTorture");
    let mut layer = &d.root;
    for i in 1..=10 {
        assert_eq!(layer.layers.len(), 1);
        layer = &layer.layers[0];
        assert_eq!(layer.id, format!("G{}", i));
    }
    assert_eq!(layer.nodes.len(), 1);
    assert_eq!(layer.nodes[0].id, "N0");
    assert_eq!(
        layer.nodes[0].properties.get("width"),
        Some(&Expression::VariableRef("v100".to_string()))
    );
}

#[test]
fn parses_connections_and_labels() {
    let src = "# Net\nClient[Browser] -> Server[NodeJS] : \"HTTP GET\"\nServer >> Queue\nServer == Db\n";
    let p = parse(src).unwrap();
    assert_eq!(p.diagrams.len(), 1);
    let d = &p.diagrams[0];
    assert_eq!(d.name, "Net");
    assert_eq!(d.connections.len(), 3);
    assert_eq!(d.connections[0].from, "Client");
    assert_eq!(d.connections[0].to, "Server");
    assert_eq!(d.connections[0].arrow, "->");
    assert_eq!(d.connections[0].label, Some("HTTP GET".to_string()));
    assert_eq!(d.connections[1].arrow, ">>");
    assert_eq!(d.connections[1].label, None);
    assert_eq!(d.connections[2].arrow, "==");
    assert_eq!(d.root.nodes.len(), 0);
}

#[test]
fn parses_nodes_with_attributes_and_properties() {
    let src = "# Shapes\nGateway [shape: hexagon, fill: \"#ff0000\"] { width: 150 }\nnode A:::warm { padding: base * 2 }\n";
    let p = parse(src).unwrap();
    let nodes = &p.diagrams[0].root.nodes;
    assert_eq!(nodes.len(), 2);
    assert_eq!(nodes[0].id, "Gateway");
    assert_eq!(nodes[0].attributes.get("shape"), Some(&"hexagon".to_string()));
    assert_eq!(nodes[0].attributes.get("fill"), Some(&"#ff0000".to_string()));
    assert_eq!(nodes[0].properties.get("width"), Some(&Expression::Number("150".to_string())));
    assert_eq!(nodes[1].id, "A");
    assert_eq!(nodes[1].class, Some("warm".to_string()));
    assert_eq!(
        nodes[1].properties.get("padding"),
        Some(&Expression::BinaryOp(
            Box::new(Expression::VariableRef("base".to_string())),
            "*".to_string(),
            Box::new(Expression::Number("2".to_string()))
        ))
    );
}

#[test]
fn bare_word_in_brackets_is_the_label() {
    let p = parse("# D\nClient[Browser]\nA [Service] { width: 2 }\n").unwrap();
    let nodes = &p.diagrams[0].root.nodes;
    assert_eq!(nodes[0].id, "Client");
    assert_eq!(nodes[0].label, Some("Browser".to_string()));
    assert_eq!(nodes[0].attributes.len(), 0);
    assert_eq!(nodes[1].label, Some("Service".to_string()));
    assert!(nodes[1].attributes.get("Service").is_none());
}

#[test]
fn key_only_attribute_among_others_has_empty_value() {
    let p = parse("# D\nA [Service, shape: box]\n").unwrap();
    let n = &p.diagrams[0].root.nodes[0];
    assert_eq!(n.label, None);
    assert_eq!(n.attributes.get("Service"), Some(&String::new()));
    assert_eq!(n.attributes.get("shape"), Some(&"box".to_string()));
}

#[test]
fn attributed_arrow_keeps_attributes() {
    let p = parse("# D\nA -[color: red, weight: 2]-> B\n").unwrap();
    let c = &p.diagrams[0].connections[0];
    assert_eq!(c.arrow, "-[color: red, weight: 2]->");
    assert_eq!(c.attributes.get("color"), Some(&"red".to_string()));
    assert_eq!(c.attributes.get("weight"), Some(&"2".to_string()));
}

#[test]
fn precedence_and_left_association() {
    let p = parse("let x = 1 + 2 * 3 - 4").unwrap();
    let e = p.variables.get("x").unwrap();
    let n = |s: &str| Box::new(Expression::Number(s.to_string()));
    let expected = Expression::BinaryOp(
        Box::new(Expression::BinaryOp(n("1"), "+".to_string(), Box::new(Expression::BinaryOp(n("2"), "*".to_string(), n("3"))))),
        "-".to_string(),
        n("4"),
    );
    assert_eq!(e, &expected);
    assert_eq!(get_operator_precedence("<="), 1);
    assert_eq!(get_operator_precedence("-"), 2);
    assert_eq!(get_operator_precedence("/"), 3);
    assert_eq!(get_operator_precedence("%"), 0);
}

#[test]
fn terms_of_every_kind() {
    let p = parse("let a = Math.max(x, 2) + gw.width + 10px + \"s\" + -3.5").unwrap();
    let e = p.variables.get("a").unwrap();
    let mut leaves = Vec::new();
    fn walk<'a>(e: &'a Expression, out: &mut Vec<&'a Expression>) {
        match e {
            Expression::BinaryOp(l, _, r) => {
                walk(l, out);
                walk(r, out);
            }
            other => out.push(other),
        }
    }
    walk(e, &mut leaves);
    assert_eq!(
        leaves[0],
        &Expression::FunctionCall {
            name: "Math.max".to_string(),
            args: vec![Expression::VariableRef("x".to_string()), Expression::Number("2".to_string())]
        }
    );
    assert_eq!(leaves[1], &Expression::PropertyRef("gw".to_string(), "width".to_string()));
    assert_eq!(leaves[2], &Expression::Unit("10".to_string(), "px".to_string()));
    assert_eq!(leaves[3], &Expression::String("\"s\"".to_string()));
    assert_eq!(leaves[4], &Expression::Number("-3.5".to_string()));
}

#[test]
fn parses_scenario_and_style_classes() {
    let src = "# A\n[scenario: \"happy_path\"]\nstyle warm { fill: #f00; stroke : #000 ;; junk }\nX\n# B\nstyle cold { fill: #00f }\n";
    let p = parse(src).unwrap();
    assert_eq!(p.diagrams.len(), 2);
    assert_eq!(p.diagrams[0].scenario, Some("happy_path".to_string()));
    assert_eq!(p.diagrams[1].scenario, None);
    let warm = p.classes.get("warm").unwrap();
    assert_eq!(warm.get("fill"), Some(&"#f00".to_string()));
    assert_eq!(warm.get("stroke"), Some(&"#000".to_string()));
    assert_eq!(warm.len(), 2);
    assert_eq!(p.classes.get("cold").unwrap().get("fill"), Some(&"#00f".to_string()));
}

#[test]
fn parses_packets_states_xy_and_tables() {
    let src = "packet Header [64] {\n  0..15 : SrcPort [type: u16]\n  16-31 : DstPort\n  constraint: SrcPort <= 1024\n}\n\
state Door {\n  [*] -> Closed\n  Closed -> Open : @push\n}\n\
xy Temp {\n  x_axis: \"Time\"\n  y_axis: \"Celsius\"\n  data: @source::path\n}\n\
sqltable Orders {\n  PK id: uuid\n  FK user_id: uuid -> Users\n  status: varchar(50)\n}\n";
    let p = parse(src).unwrap();
    assert_eq!(p.packets.len(), 1);
    let pk = &p.packets[0];
    assert_eq!(pk.name, "Header");
    assert_eq!(pk.size, "64");
    assert_eq!(pk.fields.len(), 2);
    assert_eq!(pk.fields[0].range, "0..15");
    assert_eq!(pk.fields[0].name, "SrcPort");
    assert_eq!(pk.fields[0].field_type, "type: u16");
    assert_eq!(pk.fields[1].range, "16-31");
    assert_eq!(pk.fields[1].field_type, "");
    assert_eq!(pk.constraint, Some("SrcPort <= 1024".to_string()));

    let st = &p.states[0];
    assert_eq!(st.name, "Door");
    assert_eq!(st.transitions.len(), 2);
    assert_eq!(st.transitions[0].from, "[*]");
    assert_eq!(st.transitions[0].to, "Closed");
    assert_eq!(st.transitions[0].trigger, None);
    assert_eq!(st.transitions[1].trigger, Some("@push".to_string()));

    let xy = &p.xys[0];
    assert_eq!(xy.name, "Temp");
    assert_eq!(xy.x_axis, "Time");
    assert_eq!(xy.y_axis, "Celsius");
    assert_eq!(xy.data, "@source::path");

    let t = &p.sqltables[0];
    assert_eq!(t.name, "Orders");
    assert_eq!(t.fields.len(), 3);
    assert!(t.fields[0].is_pk && !t.fields[0].is_fk);
    assert_eq!(t.fields[0].name, "id");
    assert_eq!(t.fields[0].field_type, "uuid");
    assert!(t.fields[1].is_fk);
    assert_eq!(t.fields[1].fk_ref, Some("Users".to_string()));
    assert_eq!(t.fields[2].field_type, "varchar(50)");
    assert!(!t.fields[2].is_pk && !t.fields[2].is_fk);
}

#[test]
fn comments_and_blank_lines_are_skipped() {
    let p = parse("// a comment\n\n# D // not a comment in a name\nA -> B // trailing\n").unwrap();
    assert_eq!(p.diagrams[0].name, "D // not a comment in a name");
    assert_eq!(p.diagrams[0].connections.len(), 1);
}

#[test]
fn empty_source_is_an_empty_project() {
    let p = parse("  \n // nothing\n").unwrap();
    assert!(p.diagrams.is_empty() && p.packets.is_empty() && p.variables.len() == 0);
}

#[test]
fn syntax_error_reports_line_and_column() {
    match parse("let x = 1\n  A -> B\n") {
        Err(ParseError::ParseFailed { location, .. }) => {
            assert_eq!(location.line, 2);
            assert_eq!(location.col, 3);
            assert_eq!(location.source, "  A -> B");
        }
        _ => panic!("expected a syntax error"),
    }
}

#[test]
fn a_keyword_ends_a_diagram() {
    let p = parse("# D\nA\nlet y = 2\n").unwrap();
    assert_eq!(p.diagrams.len(), 1);
    assert_eq!(p.diagrams[0].root.nodes.len(), 1);
    assert!(p.variables.get("y").is_some());
    let p = parse("# D\nA -> B\n").unwrap();
    assert_eq!(p.diagrams[0].connections.len(), 1);
    assert_eq!(p.diagrams[0].root.nodes.len(), 0);
}

#[test]
fn top_level_connection_is_a_syntax_error() {
    match parse("A[Service] -> B[DB]") {
        Err(ParseError::ParseFailed { location, .. }) => {
            assert_eq!((location.line, location.col), (1, 1));
        }
        _ => panic!("expected a syntax error"),
    }
}

#[test]
fn compile_requires_a_diagram() {
    match compile("let a = 1") {
        Err(CompileError::ValidationError(m)) => {
            assert_eq!(m, "No diagrams found in input. Use '#' to start a diagram.");
        }
        _ => panic!("expected a validation error"),
    }
    assert!(matches!(compile("let = "), Err(CompileError::Parse(ParseError::ParseFailed { .. }))));
    let p = compile("# Only\nA").unwrap();
    assert_eq!(p.diagrams[0].root.nodes[0].id, "A");
}

#[test]
fn syntax_tree_spans_the_source() {
    let src = "let w = 2 * x\n# D\nA [shape: circle] -> B\n";
    let t = TrxParser::parse_file(src).ok().unwrap();
    assert_eq!(t.rule, Rule::File);
    assert_eq!((t.start, t.end), (0, src.chars().count()));
    assert_eq!(t.children.len(), 2);
    let v = &t.children[0];
    assert_eq!(v.rule, Rule::VariableDecl);
    assert_eq!(v.text, "let w = 2 * x");
    assert_eq!(v.children[0].text, "w");
    assert_eq!(v.children[1].rule, Rule::MathExpression);
    let d = &t.children[1];
    assert_eq!(d.rule, Rule::Diagram);
    assert_eq!(d.children[0].text, "D");
    let c = &d.children[1];
    assert_eq!(c.rule, Rule::Connection);
    assert_eq!(c.children[0].text, "A");
    assert_eq!(c.children[1].text, "->");
    assert_eq!(c.children[2].text, "B");
}

#[test]
fn syntax_error_position_is_the_first_unread_character() {
    assert_eq!(TrxParser::parse_file("  // note\n  ?x").err(), Some(12));
    assert_eq!(TrxParser::parse_file("# D\nA -> B\n}").err(), Some(11));
}

#[test]
fn compile_passes_parse_results_on() {
    assert!(matches!(compile_parsed(parse("# D\nA")), Ok(p) if p.diagrams.len() == 1));
    match compile_parsed(parse("let a = 1")) {
        Err(CompileError::ValidationError(m)) => {
            assert_eq!(m, "No diagrams found in input. Use '#' to start a diagram.");
        }
        _ => panic!("expected a validation error"),
    }
    match compile_parsed(parse("A -> B")) {
        Err(CompileError::Parse(ParseError::ParseFailed { location, .. })) => {
            assert_eq!((location.line, location.col), (1, 1));
        }
        _ => panic!("expected a parse error"),
    }
}

#[test]
fn compile_accepts_a_variable_after_a_diagram() {
    let p = compile("# D\nA\nlet x = 1 + 2").unwrap();
    assert_eq!(p.diagrams.len(), 1);
    assert!(p.variables.get("x").is_some());
}
