# azul_xml

Parsing XML text into a tree of `XmlNode`s, expanding the `<component>`s that the
tree defines into the `<app>` node, and reading what a node's attributes set on the
DOM node rendered from it. The library is written in Verus; its functions are stated
over a mathematical model of their values, and the few calls into std and `xmlparser` that
Verus cannot read stand behind small trusted functions whose contracts say what those calls
give.

Rendering the expanded tree into a DOM is not here: it builds azul's `Dom<T>` through its
`Layout` trait, which belong to other parts of azul. What a node's attributes set on its DOM
node (ids, classes, dragging, tab index) is here, in `dom_settings`.

- `src/node.rs`: `XmlNode`, its model `SpecXmlNode`, the builders, `get_item`, and the
  laws of reading and writing the node at a path of child indices.
- `src/attributes.rs`: `XmlAttributeMap`, entries kept sorted by key, modelled as a map.
- `src/parse.rs`: tokens, the tree building over them (`parse_xml_tokens`) and
  `parse_xml_string`, which tokenizes with the `xmlparser` crate.
- `src/markup.rs`: the law that parsing the markup of a tree of elements gives that tree.
- `src/expand.rs`: finding the `<app>` node and the components, and expanding them; also
  `expand_xml_components_within`, which bounds the nesting and reports where it does not end.
- `src/component.rs`: the DOM settings read from attributes, the `XmlComponent` trait and the
  `div` and `p` renderers' Rust code.
- `src/strings.rs`: string order and equality, Unicode whitespace, words, trimming, integer
  reading.
- `src/error.rs`: `XmlParseError` and its messages.
