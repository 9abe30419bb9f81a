use trx_engine::ast::style::{NodeView, StyleProperties, StyleResolver, StyleRule, StyleSelector, Theme};
use trx_engine::ast::ShapeKind;
use trx_engine::textmap::TextMap;

fn rule(selectors: Vec<StyleSelector>, fill: &str, important: bool) -> StyleRule<f64> {
    let mut properties = StyleProperties::empty();
    properties.fill = Some(fill.to_string());
    StyleRule { selectors, properties, pseudo: None, important }
}

#[test]
fn cascade_picks_the_winning_rule() {
    let mut variables = TextMap::new();
    variables.insert("brand".to_string(), "#007acc".to_string());
    let theme = Theme {
        variables,
        rules: vec![
            rule(vec![StyleSelector::Id { value: "a".to_string() }], "red", false),
            rule(vec![StyleSelector::Class { value: "hot".to_string() }], "blue", false),
            rule(vec![StyleSelector::Type { shape: ShapeKind::Box }], "var(brand)", true),
        ],
    };
    let tags = vec!["hot".to_string()];
    let kind = ShapeKind::Box;
    let node = NodeView { id: "a", kind: &kind, tags: &tags };
    let resolver = StyleResolver::new(&theme);
    let p = resolver.resolve(&node, &[], None);
    assert_eq!(p.fill, Some("#007acc".to_string()));

    let circle = ShapeKind::Circle;
    let other = NodeView { id: "a", kind: &circle, tags: &tags };
    let p = resolver.resolve(&other, &[], None);
    assert_eq!(p.fill, Some("red".to_string()));

    let plain: Vec<String> = vec![];
    let third = NodeView { id: "z", kind: &circle, tags: &plain };
    let p = resolver.resolve(&third, &[], None);
    assert_eq!(p.fill, None);
}

#[test]
fn descendant_and_child_selectors() {
    let theme = Theme {
        variables: TextMap::new(),
        rules: vec![rule(
            vec![StyleSelector::Child {
                parent: Box::new(StyleSelector::Id { value: "p".to_string() }),
                child: Box::new(StyleSelector::Id { value: "c".to_string() }),
            }],
            "green",
            false,
        )],
    };
    let tags: Vec<String> = vec![];
    let kind = ShapeKind::Box;
    let child = NodeView { id: "c", kind: &kind, tags: &tags };
    let parent = NodeView { id: "p", kind: &kind, tags: &tags };
    let grand = NodeView { id: "g", kind: &kind, tags: &tags };
    let resolver = StyleResolver::new(&theme);
    assert_eq!(resolver.resolve(&child, &[&parent, &grand], None).fill, Some("green".to_string()));
    assert_eq!(resolver.resolve(&child, &[&grand, &parent], None).fill, None);
}

#[test]
fn later_rule_of_equal_weight_wins_and_pseudo_must_match() {
    let mut hover = rule(vec![StyleSelector::Id { value: "n".to_string() }], "pink", false);
    hover.pseudo = Some("hover".to_string());
    let theme = Theme {
        variables: TextMap::new(),
        rules: vec![
            rule(vec![StyleSelector::Id { value: "n".to_string() }], "one", false),
            rule(vec![StyleSelector::Id { value: "n".to_string() }], "two", false),
            hover,
        ],
    };
    let tags: Vec<String> = vec![];
    let kind = ShapeKind::Box;
    let node = NodeView { id: "n", kind: &kind, tags: &tags };
    let resolver = StyleResolver::new(&theme);
    assert_eq!(resolver.resolve(&node, &[], None).fill, Some("two".to_string()));
    assert_eq!(resolver.resolve(&node, &[], Some("hover")).fill, Some("pink".to_string()));
}
