use vstd::prelude::*;

use crate::node::{
    lemma_node_at_push, lemma_node_at_update_at, lemma_update_at_push, lemma_update_at_same,
    lemma_update_at_twice, node_at, spec_node, update_at, SpecXmlNode,
};
use crate::parse::{
    hierarchy_valid, initial_parse_state, parse_step, parse_tokens, spec_parse_xml, ParseState,
    SpecXmlToken,
};
use crate::error::SpecXmlParseError;
use crate::strings::str_to_lowercase;

verus! {

/// An element as written in XML markup: its name, its attributes in the order written, its
/// text, and its child elements.
pub struct SpecElement {
    pub name: Seq<char>,
    pub attributes: Seq<(Seq<char>, Seq<char>)>,
    pub text: Option<Seq<char>>,
    pub children: Seq<SpecElement>,
}

/// The tokens of attributes, in order.
pub open spec fn attribute_tokens(attrs: Seq<(Seq<char>, Seq<char>)>) -> Seq<SpecXmlToken> {
    Seq::new(attrs.len(), |i: int| SpecXmlToken::Attribute(attrs[i].0, attrs[i].1))
}

/// The token of an element's text, if it has one.
pub open spec fn text_tokens(t: Option<Seq<char>>) -> Seq<SpecXmlToken> {
    match t {
        Some(t) => seq![SpecXmlToken::Text(t)],
        None => Seq::empty(),
    }
}

/// The tokens of an element: `<name`, its attributes, `>`, its text, its children, `</name>`.
pub open spec fn element_tokens(e: SpecElement) -> Seq<SpecXmlToken>
    decreases e, 0int,
{
    seq![SpecXmlToken::ElementStart(e.name)] + attribute_tokens(e.attributes) + seq![
        SpecXmlToken::Other,
    ] + text_tokens(e.text) + elements_tokens(e.children) + seq![SpecXmlToken::ElementClose(e.name)]
}

/// The tokens of a sequence of elements, one after the other.
pub open spec fn elements_tokens(es: Seq<SpecElement>) -> Seq<SpecXmlToken>
    decreases es, 1int,
{
    if es.len() == 0 {
        Seq::empty()
    } else {
        elements_tokens(es.drop_last()) + element_tokens(es.last())
    }
}

/// The attribute map after the attributes are inserted in order, keys and values lowercased.
pub open spec fn attributes_map(m: Map<Seq<char>, Seq<char>>, attrs: Seq<(Seq<char>, Seq<char>)>) -> Map<
    Seq<char>,
    Seq<char>,
>
    decreases attrs.len(),
{
    if attrs.len() == 0 {
        m
    } else {
        attributes_map(m, attrs.drop_last()).insert(
            str_to_lowercase(attrs.last().0),
            str_to_lowercase(attrs.last().1),
        )
    }
}

/// The node that parsing an element gives: its name lowercased, its attributes inserted in
/// order (a later one of the same key replacing an earlier one), its text, its children.
pub open spec fn element_node(e: SpecElement) -> SpecXmlNode
    decreases e,
{
    SpecXmlNode {
        node_type: str_to_lowercase(e.name),
        attributes: attributes_map(Map::empty(), e.attributes),
        children: Seq::new(
            e.children.len(),
            |i: int|
                if 0 <= i < e.children.len() {
                    element_node(e.children[i])
                } else {
                    spec_node(Seq::empty())
                },
        ),
        text: e.text,
    }
}

/// The nodes that parsing a sequence of elements gives.
pub open spec fn elements_nodes(es: Seq<SpecElement>) -> Seq<SpecXmlNode> {
    Seq::new(es.len(), |i: int| element_node(es[i]))
}

/// Tree building from a given state.
pub open spec fn parse_from(st: ParseState, toks: Seq<SpecXmlToken>) -> Result<ParseState, SpecXmlParseError>
    decreases toks.len(),
{
    if toks.len() == 0 {
        Ok(st)
    } else {
        match parse_from(st, toks.drop_last()) {
            Ok(s) => parse_step(s, toks.last()),
            Err(e) => Err(e),
        }
    }
}

proof fn lemma_parse_from_initial(toks: Seq<SpecXmlToken>)
    ensures
        parse_tokens(toks) == parse_from(initial_parse_state(), toks),
    decreases toks.len(),
{
    if toks.len() > 0 {
        lemma_parse_from_initial(toks.drop_last());
    }
}

proof fn lemma_parse_from_concat(st: ParseState, a: Seq<SpecXmlToken>, b: Seq<SpecXmlToken>)
    ensures
        parse_from(st, a + b) == match parse_from(st, a) {
            Ok(s) => parse_from(s, b),
            Err(e) => Err(e),
        },
    decreases b.len(),
{
    if b.len() == 0 {
        assert(a + b =~= a);
    } else {
        assert((a + b).drop_last() =~= a + b.drop_last());
        assert((a + b).last() == b.last());
        lemma_parse_from_concat(st, a, b.drop_last());
    }
}

proof fn lemma_parse_from_one(st: ParseState, t: SpecXmlToken)
    ensures
        parse_from(st, seq![t]) == parse_step(st, t),
{
    assert(seq![t].drop_last() =~= Seq::<SpecXmlToken>::empty());
    assert(parse_from(st, seq![t].drop_last()) == Ok::<ParseState, SpecXmlParseError>(st));
    assert(seq![t].last() == t);
}

proof fn lemma_parse_attributes(st: ParseState, attrs: Seq<(Seq<char>, Seq<char>)>)
    requires
        hierarchy_valid(st),
    ensures
        parse_from(st, attribute_tokens(attrs)) == Ok::<ParseState, SpecXmlParseError>(
            ParseState {
                root: update_at(
                    st.root,
                    st.hierarchy,
                    SpecXmlNode {
                        attributes: attributes_map(node_at(st.root, st.hierarchy)->0.attributes, attrs),
                        ..node_at(st.root, st.hierarchy)->0
                    },
                ),
                hierarchy: st.hierarchy,
            },
        ),
    decreases attrs.len(),
{
    let p = node_at(st.root, st.hierarchy)->0;
    if attrs.len() == 0 {
        assert(attribute_tokens(attrs) =~= Seq::<SpecXmlToken>::empty());
        lemma_update_at_same(st.root, st.hierarchy);
        assert(SpecXmlNode { attributes: p.attributes, ..p } == p);
    } else {
        let init = attrs.drop_last();
        assert(attribute_tokens(attrs) =~= attribute_tokens(init) + seq![
            SpecXmlToken::Attribute(attrs.last().0, attrs.last().1),
        ]);
        lemma_parse_attributes(st, init);
        lemma_parse_from_concat(st, attribute_tokens(init), seq![
            SpecXmlToken::Attribute(attrs.last().0, attrs.last().1),
        ]);
        let x = SpecXmlNode { attributes: attributes_map(p.attributes, init), ..p };
        let s1 = ParseState { root: update_at(st.root, st.hierarchy, x), hierarchy: st.hierarchy };
        lemma_parse_from_one(s1, SpecXmlToken::Attribute(attrs.last().0, attrs.last().1));
        lemma_node_at_update_at(st.root, st.hierarchy, x);
        let y = SpecXmlNode {
            attributes: x.attributes.insert(str_to_lowercase(attrs.last().0), str_to_lowercase(attrs.last().1)),
            ..x
        };
        lemma_update_at_twice(st.root, st.hierarchy, x, y);
        assert(y == SpecXmlNode { attributes: attributes_map(p.attributes, attrs), ..p });
    }
}

proof fn lemma_parse_text(st: ParseState, t: Option<Seq<char>>)
    requires
        hierarchy_valid(st),
        node_at(st.root, st.hierarchy)->0.text is None,
    ensures
        parse_from(st, text_tokens(t)) == Ok::<ParseState, SpecXmlParseError>(
            ParseState {
                root: update_at(
                    st.root,
                    st.hierarchy,
                    SpecXmlNode { text: t, ..node_at(st.root, st.hierarchy)->0 },
                ),
                hierarchy: st.hierarchy,
            },
        ),
{
    let p = node_at(st.root, st.hierarchy)->0;
    match t {
        Some(s) => {
            lemma_parse_from_one(st, SpecXmlToken::Text(s));
        },
        None => {
            assert(parse_from(st, text_tokens(t)) == Ok::<ParseState, SpecXmlParseError>(st));
            lemma_update_at_same(st.root, st.hierarchy);
            assert(SpecXmlNode { text: t, ..p } == p);
        },
    }
}

/// Parsing an element from a state whose hierarchy leads to a node appends the element's node
/// to that node's children and leaves the hierarchy as it was.
proof fn lemma_parse_element(st: ParseState, e: SpecElement)
    requires
        hierarchy_valid(st),
    ensures
        parse_from(st, element_tokens(e)) == Ok::<ParseState, SpecXmlParseError>(
            ParseState {
                root: update_at(
                    st.root,
                    st.hierarchy,
                    SpecXmlNode {
                        children: node_at(st.root, st.hierarchy)->0.children.push(element_node(e)),
                        ..node_at(st.root, st.hierarchy)->0
                    },
                ),
                hierarchy: st.hierarchy,
            },
        ),
    decreases e, 0int,
{
    let h = st.hierarchy;
    let p = node_at(st.root, h)->0;
    let k = p.children.len() as int;
    let name = str_to_lowercase(e.name);
    let start = seq![SpecXmlToken::ElementStart(e.name)];
    let attrs = attribute_tokens(e.attributes);
    let other = seq![SpecXmlToken::Other];
    let text = text_tokens(e.text);
    let kids = elements_tokens(e.children);
    let close = seq![SpecXmlToken::ElementClose(e.name)];
    // After `<name`.
    let c0 = spec_node(name);
    let p1 = SpecXmlNode { children: p.children.push(c0), ..p };
    let h1 = h.push(k);
    let s1 = ParseState { root: update_at(st.root, h, p1), hierarchy: h1 };
    lemma_parse_from_one(st, SpecXmlToken::ElementStart(e.name));
    lemma_node_at_update_at(st.root, h, p1);
    lemma_node_at_push(update_at(st.root, h, p1), h, k);
    assert(node_at(s1.root, h1) == Some(c0));
    // After the attributes.
    lemma_parse_attributes(s1, e.attributes);
    let c1 = SpecXmlNode { attributes: attributes_map(c0.attributes, e.attributes), ..c0 };
    let s2 = ParseState { root: update_at(s1.root, h1, c1), hierarchy: h1 };
    lemma_parse_from_concat(st, start, attrs);
    lemma_node_at_update_at(s1.root, h1, c1);
    // After `>`.
    lemma_parse_from_one(s2, SpecXmlToken::Other);
    lemma_parse_from_concat(st, start + attrs, other);
    // After the text.
    lemma_parse_text(s2, e.text);
    let c2 = SpecXmlNode { text: e.text, ..c1 };
    let s4 = ParseState { root: update_at(s2.root, h1, c2), hierarchy: h1 };
    lemma_parse_from_concat(st, start + attrs + other, text);
    lemma_node_at_update_at(s2.root, h1, c2);
    // After the children.
    lemma_parse_elements(s4, e.children);
    let c3 = SpecXmlNode { children: c2.children + elements_nodes(e.children), ..c2 };
    let s5 = ParseState { root: update_at(s4.root, h1, c3), hierarchy: h1 };
    lemma_parse_from_concat(st, start + attrs + other + text, kids);
    lemma_node_at_update_at(s4.root, h1, c3);
    assert(c2.children + elements_nodes(e.children) =~= element_node(e).children);
    assert(c3 == element_node(e));
    // After `</name>`.
    lemma_parse_from_one(s5, SpecXmlToken::ElementClose(e.name));
    lemma_parse_from_concat(st, start + attrs + other + text + kids, close);
    assert(h1.drop_last() =~= h);
    // The writes at the element's path fold into one write of the parent.
    lemma_update_at_twice(update_at(st.root, h, p1), h1, c1, c2);
    lemma_update_at_twice(update_at(st.root, h, p1), h1, c2, c3);
    lemma_update_at_push(st.root, h, p1, k, c3);
    assert(p1.children.update(k, c3) =~= p.children.push(element_node(e)));
}

/// Parsing a sequence of elements from a state whose hierarchy leads to a node appends their
/// nodes, in order, to that node's children.
proof fn lemma_parse_elements(st: ParseState, es: Seq<SpecElement>)
    requires
        hierarchy_valid(st),
    ensures
        parse_from(st, elements_tokens(es)) == Ok::<ParseState, SpecXmlParseError>(
            ParseState {
                root: update_at(
                    st.root,
                    st.hierarchy,
                    SpecXmlNode {
                        children: node_at(st.root, st.hierarchy)->0.children + elements_nodes(es),
                        ..node_at(st.root, st.hierarchy)->0
                    },
                ),
                hierarchy: st.hierarchy,
            },
        ),
    decreases es, 1int,
{
    let h = st.hierarchy;
    let p = node_at(st.root, h)->0;
    if es.len() == 0 {
        lemma_update_at_same(st.root, h);
        assert(p.children + elements_nodes(es) =~= p.children);
        assert(SpecXmlNode { children: p.children, ..p } == p);
    } else {
        let init = es.drop_last();
        lemma_parse_elements(st, init);
        let x = SpecXmlNode { children: p.children + elements_nodes(init), ..p };
        let s1 = ParseState { root: update_at(st.root, h, x), hierarchy: h };
        lemma_node_at_update_at(st.root, h, x);
        lemma_parse_element(s1, es.last());
        lemma_parse_from_concat(st, elements_tokens(init), element_tokens(es.last()));
        let y = SpecXmlNode { children: x.children.push(element_node(es.last())), ..x };
        lemma_update_at_twice(st.root, h, x, y);
        assert(x.children.push(element_node(es.last())) =~= p.children + elements_nodes(es));
    }
}

/// Parsing the markup of a sequence of elements gives their trees: each element becomes a node
/// with its name, its attributes (inserted in order) and its text, lowercased as the parser
/// lowercases them, and with the nodes of its child elements as children, in order.
pub proof fn lemma_parse_markup(es: Seq<SpecElement>)
    ensures
        spec_parse_xml(elements_tokens(es), false) == Ok::<Seq<SpecXmlNode>, SpecXmlParseError>(
            elements_nodes(es),
        ),
{
    let st = initial_parse_state();
    assert(node_at(st.root, st.hierarchy) == Some(st.root));
    lemma_parse_from_initial(elements_tokens(es));
    lemma_parse_elements(st, es);
    assert(update_at(st.root, st.hierarchy, SpecXmlNode { children: st.root.children + elements_nodes(es), ..st.root }).children =~= elements_nodes(es));
}

/// A close tag that does not name the innermost open element is an error that names the close
/// tag and that element, whatever tokens follow and whether the tokenizer failed later.
pub proof fn lemma_close_must_name_innermost(
    toks: Seq<SpecXmlToken>,
    name: Seq<char>,
    rest: Seq<SpecXmlToken>,
    failed: bool,
)
    requires
        parse_tokens(toks) is Ok,
        node_at(parse_tokens(toks)->Ok_0.root, parse_tokens(toks)->Ok_0.hierarchy) is Some,
        node_at(parse_tokens(toks)->Ok_0.root, parse_tokens(toks)->Ok_0.hierarchy)->0.node_type
            != str_to_lowercase(name),
    ensures
        spec_parse_xml(toks.push(SpecXmlToken::ElementClose(name)) + rest, failed) == Err::<
            Seq<SpecXmlNode>,
            SpecXmlParseError,
        >(
            SpecXmlParseError::MalformedHierarchy(
                str_to_lowercase(name),
                node_at(parse_tokens(toks)->Ok_0.root, parse_tokens(toks)->Ok_0.hierarchy)->0.node_type,
            ),
        ),
{
    let t = toks.push(SpecXmlToken::ElementClose(name));
    assert(t.drop_last() =~= toks);
    lemma_parse_from_initial(t);
    lemma_parse_from_initial(t + rest);
    lemma_parse_from_concat(initial_parse_state(), t, rest);
}

/// An element left open inside another that is then closed is an error: the markup of any
/// elements, then `<a><b></a>` with `a` and `b` different once lowercased, fails naming `a`
/// as found and `b` as expected, whatever follows.
pub proof fn lemma_unclosed_child_is_error(
    es: Seq<SpecElement>,
    a: Seq<char>,
    b: Seq<char>,
    rest: Seq<SpecXmlToken>,
    failed: bool,
)
    requires
        str_to_lowercase(a) != str_to_lowercase(b),
    ensures
        spec_parse_xml(
            elements_tokens(es) + seq![
                SpecXmlToken::ElementStart(a),
                SpecXmlToken::Other,
                SpecXmlToken::ElementStart(b),
                SpecXmlToken::Other,
                SpecXmlToken::ElementClose(a),
            ] + rest,
            failed,
        ) == Err::<Seq<SpecXmlNode>, SpecXmlParseError>(
            SpecXmlParseError::MalformedHierarchy(str_to_lowercase(a), str_to_lowercase(b)),
        ),
{
    let init = initial_parse_state();
    assert(node_at(init.root, init.hierarchy) == Some(init.root));
    let pre = elements_tokens(es);
    lemma_parse_elements(init, es);
    let r0 = SpecXmlNode { children: init.root.children + elements_nodes(es), ..init.root };
    let s0 = ParseState { root: r0, hierarchy: Seq::empty() };
    assert(update_at(init.root, init.hierarchy, r0) == r0);
    assert(parse_from(init, pre) == Ok::<ParseState, SpecXmlParseError>(s0));
    // `<a`
    let k = r0.children.len() as int;
    let na = spec_node(str_to_lowercase(a));
    let r1 = SpecXmlNode { children: r0.children.push(na), ..r0 };
    let h1 = Seq::<int>::empty().push(k);
    assert(node_at(s0.root, s0.hierarchy) == Some(r0));
    assert(update_at(r0, Seq::<int>::empty(), r1) == r1);
    let s1 = ParseState { root: r1, hierarchy: h1 };
    lemma_parse_from_one(s0, SpecXmlToken::ElementStart(a));
    assert(parse_step(s0, SpecXmlToken::ElementStart(a)) == Ok::<ParseState, SpecXmlParseError>(s1));
    lemma_node_at_push(r1, Seq::<int>::empty(), k);
    assert(node_at(r1, h1) == Some(na));
    // `>`
    lemma_parse_from_one(s1, SpecXmlToken::Other);
    // `<b`
    let nb = spec_node(str_to_lowercase(b));
    let na2 = SpecXmlNode { children: na.children.push(nb), ..na };
    let r2 = update_at(r1, h1, na2);
    let h2 = h1.push(0);
    let s2 = ParseState { root: r2, hierarchy: h2 };
    lemma_parse_from_one(s1, SpecXmlToken::ElementStart(b));
    assert(parse_step(s1, SpecXmlToken::ElementStart(b)) == Ok::<ParseState, SpecXmlParseError>(s2));
    lemma_node_at_update_at(r1, h1, na2);
    lemma_node_at_push(r2, h1, 0);
    assert(node_at(r2, h2) == Some(nb));
    // `>`
    lemma_parse_from_one(s2, SpecXmlToken::Other);
    // The tokens up to `</a>`.
    let t1 = seq![SpecXmlToken::ElementStart(a)];
    let t2 = seq![SpecXmlToken::Other];
    let t3 = seq![SpecXmlToken::ElementStart(b)];
    let t4 = seq![SpecXmlToken::Other];
    lemma_parse_from_concat(init, pre, t1);
    lemma_parse_from_concat(init, pre + t1, t2);
    lemma_parse_from_concat(init, pre + t1 + t2, t3);
    lemma_parse_from_concat(init, pre + t1 + t2 + t3, t4);
    let toks = pre + t1 + t2 + t3 + t4;
    lemma_parse_from_initial(toks);
    assert(parse_tokens(toks) == Ok::<ParseState, SpecXmlParseError>(s2));
    assert(toks.push(SpecXmlToken::ElementClose(a)) =~= pre + seq![
        SpecXmlToken::ElementStart(a),
        SpecXmlToken::Other,
        SpecXmlToken::ElementStart(b),
        SpecXmlToken::Other,
        SpecXmlToken::ElementClose(a),
    ]);
    lemma_close_must_name_innermost(toks, a, rest, failed);
}

} // verus!
