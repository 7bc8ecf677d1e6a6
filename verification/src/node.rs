use vstd::prelude::*;

use crate::attributes::XmlAttributeMap;

verus! {

/// Tag of an XML node, such as the "button" in `<button>Hello</button>`.
pub type XmlTagName = String;

/// Unparsed content of an XML node, such as the "Hello" in `<button>Hello</button>`.
pub type XmlNodeContent = String;

/// Key of an attribute, such as the "color" in `<button color="blue">Hello</button>`.
pub type XmlAttributeKey = String;

/// Value of an attribute, such as the "blue" in `<button color="blue">Hello</button>`.
pub type XmlAttributeValue = String;

/// The text content of a node, if it has any.
pub type XmlTextContent = Option<String>;

/// Mathematical model of an XML node: its tag, its attributes, its children and its text.
#[verifier::ext_equal]
pub struct SpecXmlNode {
    pub node_type: Seq<char>,
    pub attributes: Map<Seq<char>, Seq<char>>,
    pub children: Seq<SpecXmlNode>,
    pub text: Option<Seq<char>>,
}

/// A node with the given tag and nothing else.
pub open spec fn spec_node(node_type: Seq<char>) -> SpecXmlNode {
    SpecXmlNode {
        node_type,
        attributes: Map::empty(),
        children: Seq::empty(),
        text: None,
    }
}

/// Represents one XML node tag
#[derive(Debug, PartialEq, Eq, PartialOrd, Ord, Hash)]
pub struct XmlNode {
    /// Type of the node
    pub node_type: XmlTagName,
    /// Attributes of an XML node
    pub attributes: XmlAttributeMap,
    /// Direct children of this node
    pub children: Vec<XmlNode>,
    /// String content of the node, i.e the "Hello" in `<p>Hello</p>`
    pub text: XmlTextContent,
}

pub open spec fn text_view(t: Option<String>) -> Option<Seq<char>> {
    match t {
        Some(s) => Some(s@),
        None => None,
    }
}

/// The models of a sequence of nodes.
pub open spec fn nodes_view(s: Seq<XmlNode>) -> Seq<SpecXmlNode> {
    Seq::new(s.len(), |i: int| s[i]@)
}

impl XmlNode {
    pub open spec fn spec_view_default(self) -> SpecXmlNode {
        spec_node(Seq::empty())
    }

    pub open spec fn spec_view(self) -> SpecXmlNode
        decreases self,
    {
        SpecXmlNode {
            node_type: self.node_type@,
            attributes: self.attributes@,
            children: Seq::new(
                self.children@.len(),
                |i: int|
                    if 0 <= i < self.children@.len() {
                        self.children@[i].spec_view()
                    } else {
                        self.spec_view_default()
                    },
            ),
            text: text_view(self.text),
        }
    }
}

impl View for XmlNode {
    type V = SpecXmlNode;

    open spec fn view(&self) -> SpecXmlNode {
        self.spec_view()
    }
}

/// The children of a node are modelled by the models of its children.
pub proof fn lemma_children_view(n: XmlNode)
    ensures
        n@.children == nodes_view(n.children@),
{
    assert(n@.children =~= nodes_view(n.children@));
}

impl Clone for XmlNode {
    fn clone(&self) -> (r: XmlNode)
        ensures
            r@ == self@,
    {
        self.copy()
    }
}

impl Default for XmlNode {
    fn default() -> (r: XmlNode)
        ensures
            r@ == spec_node(Seq::empty()),
    {
        let r = XmlNode {
            node_type: String::new(),
            attributes: XmlAttributeMap::new(),
            children: Vec::new(),
            text: None,
        };
        assert(r@.children =~= Seq::<SpecXmlNode>::empty());
        assert(r@ =~= spec_node(Seq::empty()));
        r
    }
}

impl XmlNode {
    /// A node with the given tag, no attributes, no children and no text.
    pub fn new(node_type: &str) -> (r: XmlNode)
        ensures
            r@ == spec_node(node_type@),
    {
        let r = XmlNode {
            node_type: String::from_str(node_type),
            attributes: XmlAttributeMap::new(),
            children: Vec::new(),
            text: None,
        };
        assert(r@.children =~= Seq::<SpecXmlNode>::empty());
        assert(r@ =~= spec_node(node_type@));
        r
    }

    /// The node with `key` mapped to `value` among its attributes.
    pub fn with_attribute(self, key: &str, value: &str) -> (r: XmlNode)
        ensures
            r@ == (SpecXmlNode { attributes: self@.attributes.insert(key@, value@), ..self@ }),
    {
        let mut node = self;
        node.attributes.insert(String::from_str(key), String::from_str(value));
        proof {
            lemma_children_view(self);
            lemma_children_view(node);
        }
        assert(node@ =~= (SpecXmlNode { attributes: self@.attributes.insert(key@, value@), ..self@ }));
        node
    }

    /// The node with its children replaced by `children`.
    pub fn with_children(self, children: Vec<XmlNode>) -> (r: XmlNode)
        ensures
            r@ == (SpecXmlNode { children: nodes_view(children@), ..self@ }),
    {
        let mut node = self;
        node.children = children;
        proof {
            lemma_children_view(node);
        }
        assert(node@ =~= (SpecXmlNode { children: nodes_view(children@), ..self@ }));
        node
    }

    /// The node with its text set to `text`.
    pub fn with_text(self, text: &str) -> (r: XmlNode)
        ensures
            r@ == (SpecXmlNode { text: Some(text@), ..self@ }),
    {
        let mut node = self;
        node.text = Some(String::from_str(text));
        proof {
            lemma_children_view(self);
            lemma_children_view(node);
        }
        assert(node@ =~= (SpecXmlNode { text: Some(text@), ..self@ }));
        node
    }

    /// A deep copy of the node.
    pub fn copy(&self) -> (r: XmlNode)
        ensures
            r@ == self@,
        decreases self,
    {
        let mut children: Vec<XmlNode> = Vec::new();
        let mut i: usize = 0;
        while i < self.children.len()
            invariant
                i <= self.children@.len(),
                children@.len() == i,
                forall|j: int| 0 <= j < i ==> (#[trigger] children@[j])@ == self.children@[j]@,
            decreases self.children@.len() - i,
        {
            let c = self.children[i].copy();
            children.push(c);
            i = i + 1;
        }
        let text = match &self.text {
            Some(t) => Some(t.clone()),
            None => None,
        };
        let r = XmlNode {
            node_type: self.node_type.clone(),
            attributes: self.attributes.copy(),
            children,
            text,
        };
        proof {
            lemma_children_view(r);
            lemma_children_view(*self);
            assert(nodes_view(children@) =~= nodes_view(self.children@));
        }
        assert(r@ =~= self@);
        r
    }
}

/// The node that `path` leads to from `n`, each step choosing a child by its index.
pub open spec fn node_at(n: SpecXmlNode, path: Seq<int>) -> Option<SpecXmlNode>
    decreases path.len(),
{
    if path.len() == 0 {
        Some(n)
    } else if 0 <= path[0] < n.children.len() {
        node_at(n.children[path[0]], path.drop_first())
    } else {
        None
    }
}

/// `n` with the node that `path` leads to replaced by `new`.
pub open spec fn update_at(n: SpecXmlNode, path: Seq<int>, new: SpecXmlNode) -> SpecXmlNode
    decreases path.len(),
{
    if path.len() == 0 {
        new
    } else if 0 <= path[0] < n.children.len() {
        SpecXmlNode {
            children: n.children.update(path[0], update_at(n.children[path[0]], path.drop_first(), new)),
            ..n
        }
    } else {
        n
    }
}

/// A path of child indices as integers.
pub open spec fn path_view(p: Seq<usize>) -> Seq<int> {
    p.map_values(|i: usize| i as int)
}

/// Reading back the node at a path gives what was written there.
pub proof fn lemma_node_at_update_at(n: SpecXmlNode, path: Seq<int>, new: SpecXmlNode)
    requires
        node_at(n, path) is Some,
    ensures
        node_at(update_at(n, path, new), path) == Some(new),
    decreases path.len(),
{
    if path.len() > 0 {
        lemma_node_at_update_at(n.children[path[0]], path.drop_first(), new);
    }
}

/// Writing back the node found at a path leaves the tree unchanged.
pub proof fn lemma_update_at_same(n: SpecXmlNode, path: Seq<int>)
    requires
        node_at(n, path) is Some,
    ensures
        update_at(n, path, node_at(n, path)->0) == n,
    decreases path.len(),
{
    if path.len() > 0 {
        let i = path[0];
        lemma_update_at_same(n.children[i], path.drop_first());
        assert(n.children.update(i, n.children[i]) =~= n.children);
    }
}

/// Writing twice at the same path keeps the second write.
pub proof fn lemma_update_at_twice(n: SpecXmlNode, path: Seq<int>, a: SpecXmlNode, b: SpecXmlNode)
    ensures
        update_at(update_at(n, path, a), path, b) == update_at(n, path, b),
    decreases path.len(),
{
    if path.len() > 0 {
        let i = path[0];
        if 0 <= i < n.children.len() {
            lemma_update_at_twice(n.children[i], path.drop_first(), a, b);
            assert(n.children.update(i, update_at(n.children[i], path.drop_first(), a)).update(
                i,
                update_at(update_at(n.children[i], path.drop_first(), a), path.drop_first(), b),
            ) =~= n.children.update(i, update_at(n.children[i], path.drop_first(), b)));
        }
    }
}

/// The node one index further down a path is the child of the node the path leads to.
pub proof fn lemma_node_at_push(n: SpecXmlNode, p: Seq<int>, k: int)
    ensures
        node_at(n, p.push(k)) == match node_at(n, p) {
            Some(m) => if 0 <= k < m.children.len() {
                Some(m.children[k])
            } else {
                None
            },
            None => None,
        },
    decreases p.len(),
{
    if p.len() == 0 {
        assert(p.push(k).drop_first() =~= Seq::<int>::empty());
        if 0 <= k < n.children.len() {
            assert(node_at(n.children[k], Seq::<int>::empty()) == Some(n.children[k]));
        }
    } else {
        assert(p.push(k)[0] == p[0]);
        assert(p.push(k).drop_first() =~= p.drop_first().push(k));
        if 0 <= p[0] < n.children.len() {
            lemma_node_at_push(n.children[p[0]], p.drop_first(), k);
        }
    }
}

/// Writing a node at a path and then a child of it one index further down is one write of the
/// node with that child replaced.
pub proof fn lemma_update_at_push(n: SpecXmlNode, h: Seq<int>, x: SpecXmlNode, k: int, y: SpecXmlNode)
    requires
        node_at(n, h) is Some,
        0 <= k < x.children.len(),
    ensures
        update_at(update_at(n, h, x), h.push(k), y) == update_at(
            n,
            h,
            SpecXmlNode { children: x.children.update(k, y), ..x },
        ),
    decreases h.len(),
{
    if h.len() == 0 {
        assert(h.push(k).drop_first() =~= Seq::<int>::empty());
        assert(update_at(x.children[k], Seq::<int>::empty(), y) == y);
    } else {
        let i = h[0];
        assert(h.push(k)[0] == i);
        assert(h.push(k).drop_first() =~= h.drop_first().push(k));
        lemma_update_at_push(n.children[i], h.drop_first(), x, k, y);
        lemma_node_at_update_at(n, h, x);
        assert(n.children.update(i, update_at(n.children[i], h.drop_first(), x)).update(
            i,
            update_at(update_at(n.children[i], h.drop_first(), x), h.drop_first().push(k), y),
        ) =~= n.children.update(
            i,
            update_at(n.children[i], h.drop_first(), SpecXmlNode { children: x.children.update(k, y), ..x }),
        ));
    }
}

proof fn lemma_view_child_replaced(n: XmlNode, i: int)
    requires
        0 <= i < n.children@.len(),
    ensures
        forall|m: XmlNode, c: XmlNode|
            #![trigger m.spec_view(), c.spec_view()]
            m.node_type == n.node_type && m.attributes == n.attributes && m.text == n.text
                && m.children@ == n.children@.update(i, c)
                ==> m@ == (SpecXmlNode { children: n@.children.update(i, c@), ..n@ }),
        n@.children.update(i, n@.children[i]) == n@.children,
        n@ == (SpecXmlNode { children: n@.children, ..n@ }),
{
    assert(n@.children.update(i, n@.children[i]) =~= n@.children);
    assert forall|m: XmlNode, c: XmlNode|
        #![trigger m.spec_view(), c.spec_view()]
        m.node_type == n.node_type && m.attributes == n.attributes && m.text == n.text
            && m.children@ == n.children@.update(i, c)
            implies m@ == (SpecXmlNode { children: n@.children.update(i, c@), ..n@ }) by {
        assert(m@.children =~= n@.children.update(i, c@));
    }
}

/// Given a root node, follows the child indices in `hierarchy` and returns a mutable
/// reference to the node they lead to, or `None` where an index is out of range.
pub fn get_item<'a>(hierarchy: &[usize], root_node: &'a mut XmlNode) -> (r: Option<&'a mut XmlNode>)
    ensures
        node_at(old(root_node)@, path_view(hierarchy@)) matches Some(n) ==> {
            &&& r is Some
            &&& (*r->0)@ == n
            &&& final(root_node)@ == update_at(old(root_node)@, path_view(hierarchy@), (*final(r->0))@)
        },
        node_at(old(root_node)@, path_view(hierarchy@)) is None ==> r is None && final(root_node)@
            == old(root_node)@,
    decreases hierarchy.len(),
{
    if hierarchy.len() == 0 {
        return Some(root_node);
    }
    let i = hierarchy[0];
    let ghost path = path_view(hierarchy@);
    if i < root_node.children.len() {
        let rest = vstd::slice::slice_subrange(hierarchy, 1, hierarchy.len());
        assert(path_view(rest@) =~= path.drop_first());
        proof {
            lemma_view_child_replaced(*root_node, i as int);
        }
        let child = &mut root_node.children[i];
        get_item(rest, child)
    } else {
        None
    }
}

} // verus!
