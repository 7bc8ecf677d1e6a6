use azul_xml::{get_item, XmlAttributeMap, XmlNode};

#[test]
fn builders_set_fields() {
    let n = XmlNode::new("div")
        .with_attribute("id", "x")
        .with_text("hi")
        .with_children(vec![XmlNode::new("p")]);
    assert_eq!(n.node_type, "div");
    assert_eq!(n.attributes.get("id").map(|v| v.as_str()), Some("x"));
    assert_eq!(n.text.as_deref(), Some("hi"));
    assert_eq!(n.children, vec![XmlNode::new("p")]);
}

#[test]
fn default_node_is_empty() {
    let n = XmlNode::default();
    assert_eq!(n.node_type, "");
    assert!(n.children.is_empty());
    assert_eq!(n.text, None);
    assert_eq!(n.attributes, XmlAttributeMap::new());
}

#[test]
fn attribute_map_insert_order_does_not_matter() {
    let mut a = XmlAttributeMap::new();
    a.insert("b".to_string(), "2".to_string());
    a.insert("a".to_string(), "1".to_string());
    let mut b = XmlAttributeMap::new();
    b.insert("a".to_string(), "1".to_string());
    b.insert("b".to_string(), "2".to_string());
    assert_eq!(a, b);
}

#[test]
fn attribute_map_insert_replaces_and_get_reads_back() {
    let mut a = XmlAttributeMap::new();
    a.insert("k".to_string(), "1".to_string());
    a.insert("k".to_string(), "2".to_string());
    assert_eq!(a.get("k").map(|v| v.as_str()), Some("2"));
    assert_eq!(a.get("other"), None);
    let mut b = XmlAttributeMap::new();
    b.insert("k".to_string(), "2".to_string());
    assert_eq!(a, b);
}

#[test]
fn get_item_writes_reach_the_tree() {
    let mut tree = XmlNode::new("root").with_children(vec![
        XmlNode::new("a").with_children(vec![XmlNode::new("b")]),
    ]);
    get_item(&[0, 0], &mut tree).unwrap().text = Some("changed".to_string());
    assert_eq!(
        tree,
        XmlNode::new("root").with_children(vec![
            XmlNode::new("a").with_children(vec![XmlNode::new("b").with_text("changed")]),
        ])
    );
}

#[test]
fn clone_is_deep_and_equal() {
    let n = XmlNode::new("a").with_attribute("x", "y").with_children(vec![XmlNode::new("b").with_text("t")]);
    let c = n.clone();
    assert_eq!(c, n);
}
