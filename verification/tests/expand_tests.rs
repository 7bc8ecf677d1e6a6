use azul_xml::{expand_xml_components, get_app_node, parse_xml_string, XmlNode, XmlParseError};

#[test]
fn get_app_node_finds_the_only_app() {
    let nodes = vec![XmlNode::new("component"), XmlNode::new("app").with_text("x")];
    assert_eq!(get_app_node(&nodes).unwrap(), XmlNode::new("app").with_text("x"));
}

#[test]
fn get_app_node_without_app_fails() {
    let nodes = vec![XmlNode::new("div")];
    assert!(matches!(get_app_node(&nodes), Err(XmlParseError::NoRootComponent)));
}

#[test]
fn get_app_node_with_two_apps_fails() {
    let nodes = vec![XmlNode::new("app"), XmlNode::new("app")];
    assert!(matches!(get_app_node(&nodes), Err(XmlParseError::MultipleRootComponents)));
}

#[test]
fn expand_replaces_component_uses() {
    let nodes = parse_xml_string(
        "<component name='btn'><p>label</p></component><app><btn id='one'>t</btn><span/></app>",
    )
    .unwrap();
    let app = expand_xml_components(&nodes).unwrap();
    assert_eq!(
        app,
        XmlNode::new("app").with_children(vec![
            XmlNode::new("div")
                .with_attribute("id", "one")
                .with_text("t")
                .with_children(vec![XmlNode::new("p").with_text("label")]),
            XmlNode::new("span"),
        ])
    );
}

#[test]
fn expand_nested_components() {
    let nodes = vec![
        XmlNode::new("component").with_attribute("name", "outer").with_children(vec![XmlNode::new("inner")]),
        XmlNode::new("component").with_attribute("name", "inner").with_children(vec![XmlNode::new("b")]),
        XmlNode::new("app").with_children(vec![XmlNode::new("outer")]),
    ];
    let app = expand_xml_components(&nodes).unwrap();
    assert_eq!(
        app,
        XmlNode::new("app").with_children(vec![XmlNode::new("div")
            .with_children(vec![XmlNode::new("div").with_children(vec![XmlNode::new("b")])])])
    );
}

#[test]
fn expand_later_component_of_same_name_wins() {
    let nodes = vec![
        XmlNode::new("component").with_attribute("name", "c").with_children(vec![XmlNode::new("first")]),
        XmlNode::new("component").with_attribute("name", "c").with_children(vec![XmlNode::new("second")]),
        XmlNode::new("app").with_children(vec![XmlNode::new("c")]),
    ];
    let app = expand_xml_components(&nodes).unwrap();
    assert_eq!(
        app,
        XmlNode::new("app").with_children(vec![XmlNode::new("div").with_children(vec![XmlNode::new("second")])])
    );
}

#[test]
fn expand_without_components_returns_app() {
    let nodes = vec![XmlNode::new("app").with_children(vec![XmlNode::new("x")])];
    assert_eq!(expand_xml_components(&nodes).unwrap(), nodes[0]);
}

#[test]
fn expand_component_without_name_fails() {
    let nodes = vec![XmlNode::new("component"), XmlNode::new("app")];
    assert!(matches!(expand_xml_components(&nodes), Err(XmlParseError::ComponentWithoutName)));
}

#[test]
fn expand_missing_app_fails_first() {
    let nodes = vec![XmlNode::new("component")];
    assert!(matches!(expand_xml_components(&nodes), Err(XmlParseError::NoRootComponent)));
}

#[test]
fn expand_twice_equals_expand_once() {
    let component = XmlNode::new("component")
        .with_attribute("name", "card")
        .with_children(vec![XmlNode::new("title"), XmlNode::new("body")]);
    let nodes = vec![
        component.clone(),
        XmlNode::new("app").with_children(vec![XmlNode::new("card").with_attribute("id", "c1")]),
    ];
    let once = expand_xml_components(&nodes).unwrap();
    let again = expand_xml_components(&[component, once.clone()]).unwrap();
    assert_eq!(again, once);
}

#[test]
fn expand_within_matches_expand_when_fuel_suffices() {
    let nodes = parse_xml_string(
        "<component name='btn'><p>label</p></component><app><btn id='one'/></app>",
    )
    .unwrap();
    let checked = azul_xml::expand_xml_components_within(&nodes, 10).unwrap().unwrap();
    assert_eq!(checked, expand_xml_components(&nodes).unwrap());
}

#[test]
fn expand_within_reports_self_containing_component() {
    let nodes = vec![
        XmlNode::new("component").with_attribute("name", "a").with_children(vec![XmlNode::new("a")]),
        XmlNode::new("app").with_children(vec![XmlNode::new("a")]),
    ];
    assert!(azul_xml::expand_xml_components_within(&nodes, 50).is_none());
}

#[test]
fn expand_within_reports_too_little_fuel() {
    let nodes = vec![
        XmlNode::new("component").with_attribute("name", "c").with_children(vec![XmlNode::new("x")]),
        XmlNode::new("app").with_children(vec![XmlNode::new("c")]),
    ];
    assert!(azul_xml::expand_xml_components_within(&nodes, 1).is_none());
    assert!(azul_xml::expand_xml_components_within(&nodes, 2).is_some());
}

#[test]
fn expand_within_passes_errors_through() {
    let nodes = vec![XmlNode::new("div")];
    assert!(matches!(
        azul_xml::expand_xml_components_within(&nodes, 0),
        Some(Err(XmlParseError::NoRootComponent))
    ));
}
