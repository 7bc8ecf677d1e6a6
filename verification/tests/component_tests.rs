use azul_xml::strings::{parse_isize, split_whitespace, trim};
use azul_xml::{dom_settings, DivRenderer, TabIndex, TextRenderer, XmlAttributeMap, XmlComponent, XmlParseError};

fn attrs(pairs: &[(&str, &str)]) -> XmlAttributeMap {
    let mut m = XmlAttributeMap::new();
    for (k, v) in pairs {
        m.insert(k.to_string(), v.to_string());
    }
    m
}

#[test]
fn dom_settings_reads_ids_classes_and_flags() {
    let s = dom_settings(&attrs(&[
        ("id", " a  b "),
        ("class", "big\tred"),
        ("draggable", "true"),
        ("tabindex", "5"),
    ]));
    assert_eq!(s.ids, vec!["a".to_string(), "b".to_string()]);
    assert_eq!(s.classes, vec!["big".to_string(), "red".to_string()]);
    assert_eq!(s.draggable, Some(true));
    assert_eq!(s.tab_index, Some(TabIndex::OverrideInParent(5)));
}

#[test]
fn dom_settings_tab_index_cases() {
    assert_eq!(dom_settings(&attrs(&[("tabindex", "0")])).tab_index, Some(TabIndex::Auto));
    assert_eq!(dom_settings(&attrs(&[("tabindex", "-3")])).tab_index, Some(TabIndex::NoKeyboardFocus));
    assert_eq!(dom_settings(&attrs(&[("tabindex", "x"), ("focusable", "false")])).tab_index, Some(TabIndex::Auto));
    assert_eq!(dom_settings(&attrs(&[("focusable", "maybe")])).tab_index, None);
    assert_eq!(dom_settings(&attrs(&[("draggable", "no")])).draggable, None);
    assert_eq!(dom_settings(&attrs(&[("draggable", "false")])).draggable, Some(false));
    assert!(dom_settings(&attrs(&[])).ids.is_empty());
}

#[test]
fn parse_isize_follows_std() {
    for text in ["0", "+12", "-7", "007", "", "+", "-", " 1", "1a", "9223372036854775807", "9223372036854775808", "-9223372036854775808", "-9223372036854775809"] {
        assert_eq!(parse_isize(text), text.parse::<isize>().ok(), "{:?}", text);
    }
}

#[test]
fn split_whitespace_follows_std() {
    for text in ["", "   ", "a", " a b  c ", "x\u{2003}y\nz"] {
        let expected: Vec<String> = text.split_whitespace().map(|w| w.to_string()).collect();
        assert_eq!(split_whitespace(text), expected);
    }
}

#[test]
fn trim_follows_std() {
    for text in ["", "  ", " a ", "a b", "\tx\u{3000}"] {
        assert_eq!(trim(text), text.trim());
    }
}

#[test]
fn renderers_compile_to_rust_code() {
    let empty = XmlAttributeMap::new();
    assert_eq!(DivRenderer {}.compile_to_rust_code(&empty, &None).unwrap(), "Dom::div()");
    assert_eq!(
        TextRenderer {}.compile_to_rust_code(&empty, &Some("  hi there ".to_string())).unwrap(),
        "Dom::label(\"hi there\")"
    );
    assert_eq!(TextRenderer {}.compile_to_rust_code(&empty, &None).unwrap(), "Dom::label(\"\")");
}

#[test]
fn error_messages() {
    assert_eq!(XmlParseError::NoRootComponent.to_message(), "No <app></app> component present - empty DOM");
    assert_eq!(
        XmlParseError::MultipleRootComponents.to_message(),
        "Multiple <app/> components present, only one root node is allowed"
    );
    assert_eq!(
        XmlParseError::ComponentWithoutName.to_message(),
        "Found <component/> tag with out a \"name\" attribute, component must have a name"
    );
    assert_eq!(XmlParseError::UnknownComponent("x".to_string()).to_message(), "Unknown component: \"x\"");
    assert_eq!(
        XmlParseError::MalformedHierarchy("p".to_string(), "app".to_string()).to_message(),
        "Invalid </p> tag: expected </app>"
    );
    assert_eq!(
        XmlParseError::RenderDomError("c".to_string(), "bad".to_string()).to_message(),
        "Component \"c\" raised an error while rendering DOM: \"bad\""
    );
}

#[test]
fn parse_error_message_includes_tokenizer_text() {
    match azul_xml::parse_xml_string("<<") {
        Err(e) => {
            let m = e.to_message();
            assert!(m.starts_with("XML parsing error: "));
            assert!(m.len() > "XML parsing error: ".len());
        }
        Ok(_) => panic!("expected an error"),
    }
}
