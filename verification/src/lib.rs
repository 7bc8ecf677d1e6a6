//! Parsing XML text into a tree of nodes, expanding the `<component>`s that the tree defines,
//! and reading what a node's attributes set on the DOM node rendered from it.
//!
//! Each function states its result over a mathematical model of its values (`@`), and the
//! model of parsing is the tree building that follows the tokens of the text.

pub mod attributes;
pub mod component;
pub mod error;
pub mod expand;
pub mod markup;
pub mod node;
pub mod parse;
pub mod strings;

pub use attributes::XmlAttributeMap;
pub use component::{dom_settings, DivRenderer, DomSettings, TabIndex, TextRenderer, XmlComponent};
pub use error::{CompileError, StreamError, SyntaxError, TextPos, TokenType, XmlError, XmlParseError};
pub use expand::{expand_xml_components, expand_xml_components_within, get_app_node};
pub use node::{
    get_item, XmlAttributeKey, XmlAttributeValue, XmlNode, XmlNodeContent, XmlTagName, XmlTextContent,
};
pub use parse::{parse_xml_string, parse_xml_tokens, XmlToken};
