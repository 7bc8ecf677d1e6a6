use vstd::prelude::*;

use crate::attributes::XmlAttributeMap;
use crate::error::CompileError;
use crate::node::XmlTextContent;
use crate::strings::{parse_isize, spec_parse_isize, spec_trim, split_whitespace, split_words, str_eq, strings_view, trim};

verus! {

/// Where keyboard focus reaches a DOM node.
#[derive(Debug, Clone, Copy, PartialEq, Eq, Structural)]
pub enum TabIndex {
    /// In document order.
    Auto,
    /// At the given place among its parent's children.
    OverrideInParent(usize),
    /// Never.
    NoKeyboardFocus,
}

/// What the attributes of an XML node set on the DOM node rendered from it.
pub struct DomSettings {
    /// The ids, in order: the words of the `id` attribute.
    pub ids: Vec<String>,
    /// The classes, in order: the words of the `class` attribute.
    pub classes: Vec<String>,
    /// Whether the node is draggable, where `draggable` is `true` or `false`.
    pub draggable: Option<bool>,
    /// The tab index, from `tabindex` or else from `focusable`.
    pub tab_index: Option<TabIndex>,
}

/// Model of `DomSettings`.
pub struct SpecDomSettings {
    pub ids: Seq<Seq<char>>,
    pub classes: Seq<Seq<char>>,
    pub draggable: Option<bool>,
    pub tab_index: Option<TabIndex>,
}

impl View for DomSettings {
    type V = SpecDomSettings;

    open spec fn view(&self) -> SpecDomSettings {
        SpecDomSettings {
            ids: strings_view(self.ids@),
            classes: strings_view(self.classes@),
            draggable: self.draggable,
            tab_index: self.tab_index,
        }
    }
}

/// The words of the attribute `key`, none where it is absent.
pub open spec fn attribute_words(attributes: Map<Seq<char>, Seq<char>>, key: Seq<char>) -> Seq<Seq<char>> {
    if attributes.contains_key(key) {
        split_words(attributes[key])
    } else {
        Seq::empty()
    }
}

/// `Some(true)` for a `draggable` attribute `true`, `Some(false)` for `false`, else `None`.
pub open spec fn spec_draggable(attributes: Map<Seq<char>, Seq<char>>) -> Option<bool> {
    if attributes.contains_key("draggable"@) {
        if attributes["draggable"@] == "true"@ {
            Some(true)
        } else if attributes["draggable"@] == "false"@ {
            Some(false)
        } else {
            None
        }
    } else {
        None
    }
}

/// The tab index that a `tabindex` attribute holding an integer sets: 0 for `Auto`, a
/// positive number for its place in the parent, a negative one for no keyboard focus.
pub open spec fn tab_index_of(i: int) -> TabIndex {
    if i == 0 {
        TabIndex::Auto
    } else if i > 0 {
        TabIndex::OverrideInParent(i as usize)
    } else {
        TabIndex::NoKeyboardFocus
    }
}

/// The tab index: from a `tabindex` attribute that reads as an `isize`; else `Auto` where
/// `focusable` is `true` or `false`; else none.
pub open spec fn spec_tab_index(attributes: Map<Seq<char>, Seq<char>>) -> Option<TabIndex> {
    if attributes.contains_key("tabindex"@) && spec_parse_isize(attributes["tabindex"@]) is Some {
        Some(tab_index_of(spec_parse_isize(attributes["tabindex"@])->0))
    } else if attributes.contains_key("focusable"@) && (attributes["focusable"@] == "true"@
        || attributes["focusable"@] == "false"@) {
        Some(TabIndex::Auto)
    } else {
        None
    }
}

/// Where `focusable` is `true` or `false` and no `tabindex` reads as an integer, the tab index
/// is `Auto`; `focusable` `true` and `false` set the same tab index, whatever else the
/// attributes hold.
pub proof fn lemma_focusable_sets_auto(attributes: Map<Seq<char>, Seq<char>>)
    ensures
        attributes.contains_key("focusable"@) && (attributes["focusable"@] == "true"@
            || attributes["focusable"@] == "false"@) && !(attributes.contains_key("tabindex"@)
            && spec_parse_isize(attributes["tabindex"@]) is Some) ==> spec_dom_settings(attributes).tab_index
            == Some(TabIndex::Auto),
        spec_dom_settings(attributes.insert("focusable"@, "true"@)).tab_index == spec_dom_settings(
            attributes.insert("focusable"@, "false"@),
        ).tab_index,
{
    reveal_strlit("tabindex");
    reveal_strlit("focusable");
    reveal_strlit("true");
    reveal_strlit("false");
    let t = attributes.insert("focusable"@, "true"@);
    let f = attributes.insert("focusable"@, "false"@);
    assert("tabindex"@[0] != "focusable"@[0]);
    assert("tabindex"@ != "focusable"@);
    assert(t.contains_key("tabindex"@) == f.contains_key("tabindex"@));
    if attributes.contains_key("tabindex"@) {
        assert(t["tabindex"@] == f["tabindex"@]);
    }
    assert(t["focusable"@] == "true"@);
    assert(f["focusable"@] == "false"@);
}

/// Where `tabindex` reads as an integer it decides the tab index, whatever `focusable` holds:
/// zero gives `Auto`, a positive number its place in the parent, a negative one no keyboard
/// focus.
pub proof fn lemma_tabindex_decides(attributes: Map<Seq<char>, Seq<char>>, i: int)
    requires
        attributes.contains_key("tabindex"@),
        spec_parse_isize(attributes["tabindex"@]) == Some(i),
    ensures
        i == 0 ==> spec_dom_settings(attributes).tab_index == Some(TabIndex::Auto),
        i > 0 ==> spec_dom_settings(attributes).tab_index == Some(TabIndex::OverrideInParent(i as usize)),
        i < 0 ==> spec_dom_settings(attributes).tab_index == Some(TabIndex::NoKeyboardFocus),
{
}

/// What a node's attributes set on its DOM node.
pub open spec fn spec_dom_settings(attributes: Map<Seq<char>, Seq<char>>) -> SpecDomSettings {
    SpecDomSettings {
        ids: attribute_words(attributes, "id"@),
        classes: attribute_words(attributes, "class"@),
        draggable: spec_draggable(attributes),
        tab_index: spec_tab_index(attributes),
    }
}

/// The words of the attribute `key`.
fn words_of(attributes: &XmlAttributeMap, key: &str) -> (r: Vec<String>)
    ensures
        strings_view(r@) == attribute_words(attributes@, key@),
{
    match attributes.get(key) {
        Some(v) => split_whitespace(v.as_str()),
        None => {
            let r: Vec<String> = Vec::new();
            assert(strings_view(r@) =~= Seq::<Seq<char>>::empty());
            r
        },
    }
}

/// What the attributes of an XML node set on the DOM node rendered from it: the ids and
/// classes (the words of `id` and `class`), whether it is draggable, and its tab index.
pub fn dom_settings(attributes: &XmlAttributeMap) -> (r: DomSettings)
    ensures
        r@ == spec_dom_settings(attributes@),
{
    let ids = words_of(attributes, "id");
    let classes = words_of(attributes, "class");
    let draggable = match attributes.get("draggable") {
        Some(drag) => if str_eq(drag.as_str(), "true") {
            Some(true)
        } else if str_eq(drag.as_str(), "false") {
            Some(false)
        } else {
            None
        },
        None => None,
    };
    let mut tab_index: Option<TabIndex> = None;
    if let Some(focusable) = attributes.get("focusable") {
        if str_eq(focusable.as_str(), "true") || str_eq(focusable.as_str(), "false") {
            tab_index = Some(TabIndex::Auto);
        }
    }
    if let Some(val) = attributes.get("tabindex") {
        if let Some(i) = parse_isize(val.as_str()) {
            tab_index = Some(
                if i == 0 {
                    TabIndex::Auto
                } else if i > 0 {
                    TabIndex::OverrideInParent(i as usize)
                } else {
                    TabIndex::NoKeyboardFocus
                },
            );
        }
    }
    DomSettings { ids, classes, draggable, tab_index }
}

/// Render for a `div` component
#[derive(Debug, Copy, Clone, PartialEq, Eq, PartialOrd, Ord, Hash)]
pub struct DivRenderer {}

/// Render for a `p` component
#[derive(Debug, Copy, Clone, PartialEq, Eq, PartialOrd, Ord, Hash)]
pub struct TextRenderer {}

/// A component that reacts to a parsed XML node: here, by compiling it to Rust code.
/// Rendering it into a DOM needs azul's `Dom<T>` and is not part of this trait.
pub trait XmlComponent {
    /// Used to compile the XML component to Rust code.
    fn compile_to_rust_code(&self, attributes: &XmlAttributeMap, content: &XmlTextContent) -> Result<
        String,
        CompileError,
    >;
}

impl XmlComponent for DivRenderer {
    /// The Rust code that builds the component's DOM: an empty `div`.
    fn compile_to_rust_code(&self, _attributes: &XmlAttributeMap, _content: &XmlTextContent) -> (r: Result<String, CompileError>)
        ensures
            r matches Ok(code) && code@ == "Dom::div()"@,
    {
        Ok(String::from_str("Dom::div()"))
    }
}

/// The Rust code for a text component: a label with the content, trimmed.
pub open spec fn spec_label_code(content: Option<Seq<char>>) -> Seq<char> {
    match content {
        Some(s) => "Dom::label(\""@ + spec_trim(s) + "\")"@,
        None => "Dom::label(\"\")"@,
    }
}

impl XmlComponent for TextRenderer {
    /// The Rust code that builds the component's DOM: a label that holds the content without
    /// its leading and trailing whitespace.
    fn compile_to_rust_code(&self, _attributes: &XmlAttributeMap, content: &XmlTextContent) -> (r: Result<String, CompileError>)
        ensures
            r matches Ok(code) && code@ == spec_label_code(crate::node::text_view(*content)),
    {
        match content {
            Some(s) => {
                let mut code = String::from_str("Dom::label(\"");
                code.append(trim(s.as_str()));
                code.append("\")");
                Ok(code)
            },
            None => Ok(String::from_str("Dom::label(\"\")")),
        }
    }
}

} // verus!
