use azul_xml::{parse_xml_string, parse_xml_tokens, XmlNode, XmlParseError, XmlToken};

fn s(x: &str) -> String {
    x.to_string()
}

#[test]
fn parse_lowercases_names_and_attribute_values() {
    let nodes = parse_xml_string("<APP Id='Main'>Hello</App>").unwrap();
    assert_eq!(
        nodes,
        vec![XmlNode::new("app").with_attribute("id", "main").with_text("Hello")]
    );
}

#[test]
fn parse_appends_text_pieces_of_one_element() {
    let nodes = parse_xml_string("<p>ab<br/>cd</p>").unwrap();
    assert_eq!(
        nodes,
        vec![XmlNode::new("p").with_text("abcd").with_children(vec![XmlNode::new("br")])]
    );
}

#[test]
fn parse_keeps_several_root_nodes_in_order() {
    let nodes = parse_xml_string("<a/><b><c/></b>").unwrap();
    assert_eq!(
        nodes,
        vec![
            XmlNode::new("a"),
            XmlNode::new("b").with_children(vec![XmlNode::new("c")]),
        ]
    );
}

#[test]
fn parse_later_attribute_replaces_earlier() {
    let nodes = parse_xml_string("<a k='1' k='2'/>").unwrap();
    assert_eq!(nodes, vec![XmlNode::new("a").with_attribute("k", "2")]);
}

#[test]
fn parse_rejects_mismatched_close_tag() {
    match parse_xml_string("<app></p>") {
        Err(XmlParseError::MalformedHierarchy(got, expected)) => {
            assert_eq!(got, "p");
            assert_eq!(expected, "app");
        }
        _ => panic!("expected MalformedHierarchy"),
    }
}

#[test]
fn parse_rejects_close_tag_at_top_level() {
    match parse_xml_string("</a>") {
        Err(XmlParseError::MalformedHierarchy(got, expected)) => {
            assert_eq!(got, "a");
            assert_eq!(expected, "");
        }
        _ => panic!("expected MalformedHierarchy"),
    }
}

#[test]
fn parse_reports_tokenizer_error() {
    assert!(matches!(parse_xml_string("<a><</a>"), Err(XmlParseError::ParseError(_))));
}

#[test]
fn parse_reports_hierarchy_error_before_later_tokenizer_error() {
    assert!(matches!(
        parse_xml_string("<a></b><"),
        Err(XmlParseError::MalformedHierarchy(_, _))
    ));
}

#[test]
fn parse_empty_text_gives_no_nodes() {
    assert_eq!(parse_xml_string("").unwrap(), Vec::<XmlNode>::new());
}

#[test]
fn parse_tokens_builds_tree() {
    let tokens = vec![
        XmlToken::ElementStart(s("Root")),
        XmlToken::Attribute(s("A"), s("B")),
        XmlToken::Other,
        XmlToken::ElementStart(s("leaf")),
        XmlToken::ElementEmpty,
        XmlToken::Text(s("T")),
        XmlToken::ElementClose(s("ROOT")),
    ];
    let nodes = parse_xml_tokens(&tokens, None).unwrap();
    assert_eq!(
        nodes,
        vec![XmlNode::new("root")
            .with_attribute("a", "b")
            .with_text("T")
            .with_children(vec![XmlNode::new("leaf")])]
    );
}

#[test]
fn parse_tokens_unclosed_elements_are_kept() {
    let tokens = vec![XmlToken::ElementStart(s("a")), XmlToken::ElementStart(s("b"))];
    let nodes = parse_xml_tokens(&tokens, None).unwrap();
    assert_eq!(
        nodes,
        vec![XmlNode::new("a").with_children(vec![XmlNode::new("b")])]
    );
}
