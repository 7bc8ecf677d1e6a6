use vstd::prelude::*;

use crate::attributes::XmlAttributeMap;
use crate::error::{SpecXmlParseError, XmlError, XmlParseError};
use crate::node::{
    get_item, lemma_node_at_push, lemma_node_at_update_at, lemma_update_at_same, node_at, nodes_view, path_view, spec_node, update_at,
    SpecXmlNode, XmlNode, lemma_children_view,
};
use crate::strings::{str_to_lowercase, to_lowercase};
use xmlparser::ElementEnd::{Close, Empty};
use xmlparser::Token::{Attribute, ElementEnd, ElementStart, Text};
use xmlparser::Tokenizer;

verus! {

/// A token of XML text, as far as the tree building reads it.
pub enum XmlToken {
    /// `<name`: the local part of the element's name.
    ElementStart(String),
    /// `key="value"`: the local part of the key, and the value.
    Attribute(String, String),
    /// `/>`
    ElementEmpty,
    /// `</name>`: the local part of the element's name.
    ElementClose(String),
    /// Text between elements.
    Text(String),
    /// Any other token: `>`, whitespace, comments, CDATA, processing instructions, DTD parts.
    Other,
}

/// Model of a token.
pub enum SpecXmlToken {
    ElementStart(Seq<char>),
    Attribute(Seq<char>, Seq<char>),
    ElementEmpty,
    ElementClose(Seq<char>),
    Text(Seq<char>),
    Other,
}

impl View for XmlToken {
    type V = SpecXmlToken;

    open spec fn view(&self) -> SpecXmlToken {
        match self {
            XmlToken::ElementStart(n) => SpecXmlToken::ElementStart(n@),
            XmlToken::Attribute(k, v) => SpecXmlToken::Attribute(k@, v@),
            XmlToken::ElementEmpty => SpecXmlToken::ElementEmpty,
            XmlToken::ElementClose(n) => SpecXmlToken::ElementClose(n@),
            XmlToken::Text(t) => SpecXmlToken::Text(t@),
            XmlToken::Other => SpecXmlToken::Other,
        }
    }
}

/// The models of a sequence of tokens.
pub open spec fn tokens_view(s: Seq<XmlToken>) -> Seq<SpecXmlToken> {
    Seq::new(s.len(), |i: int| s[i]@)
}

/// The tokens that xmlparser's `Tokenizer` yields for a text in fragment mode, up to the first
/// error, and whether it stopped on an error.
pub uninterp spec fn xml_tokens(xml: Seq<char>) -> (Seq<SpecXmlToken>, bool);

/// Runs xmlparser's `Tokenizer` (`Tokenizer::from`, `enable_fragment_mode`, `next`) over the
/// text. The tokenizer stops after its first error, which is returned beside the tokens before
/// it. What it yields is a function of the text alone, named `xml_tokens`; each token is kept
/// as the local part of its names and its text.
#[verifier::external_body]
fn tokenize(xml: &str) -> (r: (Vec<XmlToken>, Option<XmlError>))
    ensures
        xml_tokens(xml@) == (tokens_view(r.0@), r.1 is Some),
{
    let mut tokenizer = Tokenizer::from(xml);
    tokenizer.enable_fragment_mode();
    let mut tokens = Vec::new();
    for token in tokenizer {
        tokens.push(match token {
            Ok(ElementStart(_, n)) => XmlToken::ElementStart(n.to_str().to_string()),
            Ok(Attribute((_, k), v)) => XmlToken::Attribute(k.to_str().to_string(), v.to_str().to_string()),
            Ok(ElementEnd(Empty)) => XmlToken::ElementEmpty,
            Ok(ElementEnd(Close(_, n))) => XmlToken::ElementClose(n.to_str().to_string()),
            Ok(Text(t)) => XmlToken::Text(t.to_str().to_string()),
            Ok(_) => XmlToken::Other,
            Err(e) => return (tokens, Some(e)),
        });
    }
    (tokens, None)
}

/// The state of tree building: the synthetic root whose children are the parsed root nodes,
/// and the child indices that lead from it to the innermost open element.
pub struct ParseState {
    pub root: SpecXmlNode,
    pub hierarchy: Seq<int>,
}

pub open spec fn initial_parse_state() -> ParseState {
    ParseState { root: spec_node(Seq::empty()), hierarchy: Seq::empty() }
}

/// The hierarchy without its innermost element; an empty hierarchy stays empty.
pub open spec fn pop_hierarchy(h: Seq<int>) -> Seq<int> {
    if h.len() == 0 {
        h
    } else {
        h.drop_last()
    }
}

/// The text of a node after `t` is appended to it.
pub open spec fn appended_text(old: Option<Seq<char>>, t: Seq<char>) -> Option<Seq<char>> {
    match old {
        Some(s) => Some(s + t),
        None => Some(t),
    }
}

/// One step of tree building. Element and attribute names, and attribute values, are
/// lowercased; text is appended to the innermost open element's text; a close tag must name
/// the innermost open element (the synthetic root has the empty name).
pub open spec fn parse_step(st: ParseState, tok: SpecXmlToken) -> Result<ParseState, SpecXmlParseError> {
    match tok {
        SpecXmlToken::ElementStart(name) => match node_at(st.root, st.hierarchy) {
            Some(parent) => Ok(
                ParseState {
                    root: update_at(
                        st.root,
                        st.hierarchy,
                        SpecXmlNode {
                            children: parent.children.push(spec_node(str_to_lowercase(name))),
                            ..parent
                        },
                    ),
                    hierarchy: st.hierarchy.push(parent.children.len() as int),
                },
            ),
            None => Ok(st),
        },
        SpecXmlToken::ElementEmpty => Ok(ParseState { hierarchy: pop_hierarchy(st.hierarchy), ..st }),
        SpecXmlToken::ElementClose(name) => {
            let close = str_to_lowercase(name);
            match node_at(st.root, st.hierarchy) {
                Some(last) => if last.node_type != close {
                    Err(SpecXmlParseError::MalformedHierarchy(close, last.node_type))
                } else {
                    Ok(ParseState { hierarchy: pop_hierarchy(st.hierarchy), ..st })
                },
                None => Ok(ParseState { hierarchy: pop_hierarchy(st.hierarchy), ..st }),
            }
        },
        SpecXmlToken::Attribute(key, value) => match node_at(st.root, st.hierarchy) {
            Some(last) => Ok(
                ParseState {
                    root: update_at(
                        st.root,
                        st.hierarchy,
                        SpecXmlNode {
                            attributes: last.attributes.insert(
                                str_to_lowercase(key),
                                str_to_lowercase(value),
                            ),
                            ..last
                        },
                    ),
                    ..st
                },
            ),
            None => Ok(st),
        },
        SpecXmlToken::Text(t) => match node_at(st.root, st.hierarchy) {
            Some(last) => Ok(
                ParseState {
                    root: update_at(
                        st.root,
                        st.hierarchy,
                        SpecXmlNode { text: appended_text(last.text, t), ..last },
                    ),
                    ..st
                },
            ),
            None => Ok(st),
        },
        SpecXmlToken::Other => Ok(st),
    }
}

/// Tree building over a sequence of tokens, stopping at the first error.
pub open spec fn parse_tokens(toks: Seq<SpecXmlToken>) -> Result<ParseState, SpecXmlParseError>
    decreases toks.len(),
{
    if toks.len() == 0 {
        Ok(initial_parse_state())
    } else {
        match parse_tokens(toks.drop_last()) {
            Ok(st) => parse_step(st, toks.last()),
            Err(e) => Err(e),
        }
    }
}

/// The result of parsing: the root nodes built from the tokens, or the first error; a
/// tokenizer error counts after the tokens before it.
pub open spec fn spec_parse_xml(toks: Seq<SpecXmlToken>, failed: bool) -> Result<
    Seq<SpecXmlNode>,
    SpecXmlParseError,
> {
    match parse_tokens(toks) {
        Err(e) => Err(e),
        Ok(st) => if failed {
            Err(SpecXmlParseError::ParseError)
        } else {
            Ok(st.root.children)
        },
    }
}

/// Model of a parse result.
pub open spec fn parse_result_view(r: Result<Vec<XmlNode>, XmlParseError>) -> Result<
    Seq<SpecXmlNode>,
    SpecXmlParseError,
> {
    match r {
        Ok(v) => Ok(nodes_view(v@)),
        Err(e) => Err(e@),
    }
}

proof fn lemma_parse_tokens_err_stays(toks: Seq<SpecXmlToken>, n: int)
    requires
        0 <= n <= toks.len(),
        parse_tokens(toks.take(n)) is Err,
    ensures
        parse_tokens(toks) == parse_tokens(toks.take(n)),
    decreases toks.len(),
{
    if n == toks.len() {
        assert(toks.take(n) =~= toks);
    } else {
        assert(toks.drop_last().take(n) =~= toks.take(n));
        lemma_parse_tokens_err_stays(toks.drop_last(), n);
    }
}

proof fn lemma_parse_tokens_step(toks: Seq<SpecXmlToken>, i: int)
    requires
        0 <= i < toks.len(),
    ensures
        parse_tokens(toks.take(i + 1)) == match parse_tokens(toks.take(i)) {
            Ok(st) => parse_step(st, toks[i]),
            Err(e) => Err(e),
        },
{
    assert(toks.take(i + 1).drop_last() =~= toks.take(i));
}

/// The hierarchy leads to an existing node.
pub open spec fn hierarchy_valid(st: ParseState) -> bool {
    node_at(st.root, st.hierarchy) is Some
}

proof fn lemma_pop_hierarchy_valid(n: SpecXmlNode, h: Seq<int>)
    requires
        node_at(n, h) is Some,
    ensures
        node_at(n, pop_hierarchy(h)) is Some,
{
    if h.len() > 0 {
        assert(h =~= h.drop_last().push(h.last()));
        lemma_node_at_push(n, h.drop_last(), h.last());
    }
}

/// One step of tree building keeps the hierarchy leading to an existing node.
pub proof fn lemma_parse_step_keeps_hierarchy_valid(st: ParseState, tok: SpecXmlToken)
    requires
        hierarchy_valid(st),
    ensures
        parse_step(st, tok) matches Ok(next) ==> hierarchy_valid(next),
{
    let h = st.hierarchy;
    let p = node_at(st.root, h)->0;
    match tok {
        SpecXmlToken::ElementStart(name) => {
            let x = SpecXmlNode { children: p.children.push(spec_node(str_to_lowercase(name))), ..p };
            lemma_node_at_update_at(st.root, h, x);
            lemma_node_at_push(update_at(st.root, h, x), h, p.children.len() as int);
        },
        SpecXmlToken::ElementEmpty => {
            lemma_pop_hierarchy_valid(st.root, h);
        },
        SpecXmlToken::ElementClose(_) => {
            lemma_pop_hierarchy_valid(st.root, h);
        },
        SpecXmlToken::Attribute(key, value) => {
            lemma_node_at_update_at(
                st.root,
                h,
                SpecXmlNode {
                    attributes: p.attributes.insert(str_to_lowercase(key), str_to_lowercase(value)),
                    ..p
                },
            );
        },
        SpecXmlToken::Text(t) => {
            lemma_node_at_update_at(st.root, h, SpecXmlNode { text: appended_text(p.text, t), ..p });
        },
        SpecXmlToken::Other => {},
    }
}

/// Throughout tree building the hierarchy leads to an existing node: each token is applied to
/// the innermost open element, never lost.
pub proof fn lemma_parse_hierarchy_valid(toks: Seq<SpecXmlToken>)
    ensures
        parse_tokens(toks) matches Ok(st) ==> hierarchy_valid(st),
    decreases toks.len(),
{
    if toks.len() > 0 {
        lemma_parse_hierarchy_valid(toks.drop_last());
        if let Ok(st) = parse_tokens(toks.drop_last()) {
            lemma_parse_step_keeps_hierarchy_valid(st, toks.last());
        }
    }
}

proof fn lemma_view_node_fields(before: XmlNode, after: XmlNode)
    requires
        after.children@ == before.children@,
    ensures
        after@.children == before@.children,
{
    lemma_children_view(before);
    lemma_children_view(after);
}

/// Builds the tree of nodes from the tokens of an XML text, as `parse_xml_string` does after
/// tokenizing; `error` is the tokenizer's error after the last token, if it stopped on one.
pub fn parse_xml_tokens(tokens: &Vec<XmlToken>, error: Option<XmlError>) -> (r: Result<
    Vec<XmlNode>,
    XmlParseError,
>)
    ensures
        parse_result_view(r) == spec_parse_xml(tokens_view(tokens@), error is Some),
        r matches Err(XmlParseError::ParseError(e)) ==> error == Some(e),
{
    let ghost toks = tokens_view(tokens@);
    let mut root_node = XmlNode::default();
    let mut current_hierarchy: Vec<usize> = Vec::new();
    let mut i: usize = 0;
    assert(toks.take(0) =~= Seq::<SpecXmlToken>::empty());
    assert(path_view(current_hierarchy@) =~= Seq::<int>::empty());
    while i < tokens.len()
        invariant
            toks == tokens_view(tokens@),
            i <= tokens@.len(),
            parse_tokens(toks.take(i as int)) == Ok::<ParseState, SpecXmlParseError>(
                ParseState { root: root_node@, hierarchy: path_view(current_hierarchy@) },
            ),
        decreases tokens@.len() - i,
    {
        proof {
            lemma_parse_tokens_step(toks, i as int);
        }
        let ghost before_root = root_node@;
        let ghost before_h = path_view(current_hierarchy@);
        match &tokens[i] {
            XmlToken::ElementStart(open_value) => {
                if let Some(current_parent) = get_item(current_hierarchy.as_slice(), &mut root_node) {
                    let children_len = current_parent.children.len();
                    let ghost before = *current_parent;
                    let node = XmlNode {
                        node_type: to_lowercase(open_value.as_str()),
                        attributes: XmlAttributeMap::new(),
                        children: Vec::new(),
                        text: None,
                    };
                    assert(node@.children =~= Seq::<SpecXmlNode>::empty());
                    assert(node@ =~= spec_node(str_to_lowercase(open_value@)));
                    current_parent.children.push(node);
                    proof {
                        lemma_children_view(before);
                        lemma_children_view(*current_parent);
                        assert(nodes_view(before.children@.push(node)) =~= nodes_view(
                            before.children@,
                        ).push(node@));
                        assert((*current_parent)@ =~= (SpecXmlNode {
                            children: before@.children.push(node@),
                            ..before@
                        }));
                    }
                    current_hierarchy.push(children_len);
                    assert(path_view(current_hierarchy@) =~= before_h.push(children_len as int));
                }
            },
            XmlToken::ElementEmpty => {
                current_hierarchy.pop();
                assert(path_view(current_hierarchy@) =~= pop_hierarchy(before_h));
            },
            XmlToken::ElementClose(name) => {
                let close_value = to_lowercase(name.as_str());
                if let Some(last) = get_item(current_hierarchy.as_slice(), &mut root_node) {
                    if !(last.node_type == close_value) {
                        let expected = last.node_type.clone();
                        proof {
                            lemma_parse_tokens_err_stays(toks, i + 1);
                        }
                        return Err(XmlParseError::MalformedHierarchy(close_value, expected));
                    }
                }
                proof {
                    if node_at(before_root, before_h) is Some {
                        lemma_update_at_same(before_root, before_h);
                    }
                }
                current_hierarchy.pop();
                assert(path_view(current_hierarchy@) =~= pop_hierarchy(before_h));
            },
            XmlToken::Attribute(key, value) => {
                if let Some(last) = get_item(current_hierarchy.as_slice(), &mut root_node) {
                    let ghost before = *last;
                    let lowercase_key = to_lowercase(key.as_str());
                    let lowercase_value = to_lowercase(value.as_str());
                    last.attributes.insert(lowercase_key, lowercase_value);
                    proof {
                        lemma_view_node_fields(before, *last);
                        assert((*last)@ =~= (SpecXmlNode {
                            attributes: before@.attributes.insert(
                                str_to_lowercase(key@),
                                str_to_lowercase(value@),
                            ),
                            ..before@
                        }));
                    }
                }
            },
            XmlToken::Text(t) => {
                if let Some(last) = get_item(current_hierarchy.as_slice(), &mut root_node) {
                    let ghost before = *last;
                    let new_text = match last.text.take() {
                        Some(s) => {
                            let mut s = s;
                            s.append(t.as_str());
                            s
                        },
                        None => String::from_str(t.as_str()),
                    };
                    last.text = Some(new_text);
                    proof {
                        lemma_view_node_fields(before, *last);
                        assert((*last)@ =~= (SpecXmlNode {
                            text: appended_text(before@.text, t@),
                            ..before@
                        }));
                    }
                }
            },
            XmlToken::Other => {},
        }
        i = i + 1;
    }
    assert(toks.take(i as int) =~= toks);
    if let Some(e) = error {
        return Err(XmlParseError::ParseError(e));
    }
    proof {
        lemma_children_view(root_node);
    }
    Ok(root_node.children)
}

/// Parses the XML string into an XML tree and returns its root nodes, each with all its
/// children attached.
///
/// Element names, attribute names and attribute values are lowercased. A close tag that does
/// not name the innermost open element is `MalformedHierarchy`; text the tokenizer rejects
/// is `ParseError`.
pub fn parse_xml_string(xml: &str) -> (r: Result<Vec<XmlNode>, XmlParseError>)
    ensures
        parse_result_view(r) == spec_parse_xml(xml_tokens(xml@).0, xml_tokens(xml@).1),
{
    let (tokens, error) = tokenize(xml);
    parse_xml_tokens(&tokens, error)
}

} // verus!
