use vstd::prelude::*;

use crate::error::{SpecXmlParseError, XmlParseError};
use crate::node::{lemma_children_view, nodes_view, SpecXmlNode, XmlNode};
use crate::strings::str_eq;

verus! {

/// The nodes of a sequence whose tag is `t`, in order.
pub open spec fn nodes_of_type(nodes: Seq<SpecXmlNode>, t: Seq<char>) -> Seq<SpecXmlNode>
    decreases nodes.len(),
{
    if nodes.len() == 0 {
        Seq::empty()
    } else if nodes.last().node_type == t {
        nodes_of_type(nodes.drop_last(), t).push(nodes.last())
    } else {
        nodes_of_type(nodes.drop_last(), t)
    }
}

/// The one `<app>` node among the root nodes; no `<app>` node, or more than one, is an error.
pub open spec fn spec_get_app_node(nodes: Seq<SpecXmlNode>) -> Result<SpecXmlNode, SpecXmlParseError> {
    let apps = nodes_of_type(nodes, "app"@);
    if apps.len() == 0 {
        Err(SpecXmlParseError::NoRootComponent)
    } else if apps.len() == 1 {
        Ok(apps[0])
    } else {
        Err(SpecXmlParseError::MultipleRootComponents)
    }
}

/// The `<component>` root nodes, by their `name` attribute, each mapped to its children; a
/// later component replaces an earlier one of the same name. A component without a name is an
/// error.
pub open spec fn spec_components(nodes: Seq<SpecXmlNode>) -> Result<
    Map<Seq<char>, Seq<SpecXmlNode>>,
    SpecXmlParseError,
>
    decreases nodes.len(),
{
    if nodes.len() == 0 {
        Ok(Map::empty())
    } else {
        match spec_components(nodes.drop_last()) {
            Err(e) => Err(e),
            Ok(m) => {
                let n = nodes.last();
                if n.node_type == "component"@ {
                    if n.attributes.contains_key("name"@) {
                        Ok(m.insert(n.attributes["name"@], n.children))
                    } else {
                        Err(SpecXmlParseError::ComponentWithoutName)
                    }
                } else {
                    Ok(m)
                }
            },
        }
    }
}

/// Expansion of one node within `fuel` levels of recursion: a node whose tag names a
/// component becomes a `div` with the node's attributes and text and the component's
/// children, expanded in turn; any other node keeps its fields and has its children expanded.
/// `None` where `fuel` does not suffice.
pub open spec fn spec_expand(map: Map<Seq<char>, Seq<SpecXmlNode>>, node: SpecXmlNode, fuel: nat) -> Option<
    SpecXmlNode,
>
    decreases fuel, 0int,
{
    if fuel == 0 {
        None
    } else {
        let is_component = map.contains_key(node.node_type);
        let kids = if is_component {
            map[node.node_type]
        } else {
            node.children
        };
        match spec_expand_all(map, kids, (fuel - 1) as nat) {
            Some(ks) => Some(
                if is_component {
                    SpecXmlNode {
                        node_type: "div"@,
                        attributes: node.attributes,
                        children: ks,
                        text: node.text,
                    }
                } else {
                    SpecXmlNode { children: ks, ..node }
                },
            ),
            None => None,
        }
    }
}

/// Expansion of each node of a sequence within `fuel` levels of recursion.
pub open spec fn spec_expand_all(
    map: Map<Seq<char>, Seq<SpecXmlNode>>,
    nodes: Seq<SpecXmlNode>,
    fuel: nat,
) -> Option<Seq<SpecXmlNode>>
    decreases fuel, nodes.len() + 1,
{
    if nodes.len() == 0 {
        Some(Seq::empty())
    } else {
        match (spec_expand_all(map, nodes.drop_last(), fuel), spec_expand(map, nodes.last(), fuel)) {
            (Some(a), Some(b)) => Some(a.push(b)),
            _ => None,
        }
    }
}

/// Expanding the nodes ends: no component contains itself, directly or through others.
pub open spec fn expansion_terminates(map: Map<Seq<char>, Seq<SpecXmlNode>>, nodes: Seq<SpecXmlNode>) -> bool {
    exists|fuel: nat| #[trigger] spec_expand_all(map, nodes, fuel) is Some
}

/// The expanded nodes, where expansion ends.
pub open spec fn spec_expanded(map: Map<Seq<char>, Seq<SpecXmlNode>>, nodes: Seq<SpecXmlNode>) -> Seq<SpecXmlNode> {
    spec_expand_all(map, nodes, choose|fuel: nat| #[trigger] spec_expand_all(map, nodes, fuel) is Some)->0
}

/// The `<app>` node with all components in its children expanded.
pub open spec fn spec_expand_xml_components(nodes: Seq<SpecXmlNode>) -> Result<SpecXmlNode, SpecXmlParseError> {
    match spec_get_app_node(nodes) {
        Err(e) => Err(e),
        Ok(app) => match spec_components(nodes) {
            Err(e) => Err(e),
            Ok(m) => if m == Map::<Seq<char>, Seq<SpecXmlNode>>::empty() {
                Ok(app)
            } else {
                Ok(SpecXmlNode { children: spec_expanded(m, app.children), ..app })
            },
        },
    }
}

/// Where the root nodes have one `<app>` node and well-formed components, the expansion of the
/// app's children ends.
pub open spec fn expansion_ends_for(nodes: Seq<SpecXmlNode>) -> bool {
    match (spec_get_app_node(nodes), spec_components(nodes)) {
        (Ok(app), Ok(m)) => m != Map::<Seq<char>, Seq<SpecXmlNode>>::empty() ==> expansion_terminates(
            m,
            app.children,
        ),
        _ => true,
    }
}

/// Model of an expansion result.
pub open spec fn node_result_view(r: Result<XmlNode, XmlParseError>) -> Result<SpecXmlNode, SpecXmlParseError> {
    match r {
        Ok(n) => Ok(n@),
        Err(e) => Err(e@),
    }
}

/// Find the one and only `<app>` node; no app node, or more than one, is an error.
pub fn get_app_node(root_nodes: &[XmlNode]) -> (r: Result<XmlNode, XmlParseError>)
    ensures
        node_result_view(r) == spec_get_app_node(nodes_view(root_nodes@)),
{
    let ghost nodes = nodes_view(root_nodes@);
    let mut count: usize = 0;
    let mut first: usize = 0;
    let mut i: usize = 0;
    assert(nodes.take(0) =~= Seq::<SpecXmlNode>::empty());
    while i < root_nodes.len()
        invariant
            nodes == nodes_view(root_nodes@),
            i <= root_nodes@.len(),
            count <= i,
            count == nodes_of_type(nodes.take(i as int), "app"@).len(),
            count > 0 ==> first < i && nodes_of_type(nodes.take(i as int), "app"@)[0] == nodes[first as int],
        decreases root_nodes@.len() - i,
    {
        assert(nodes.take(i + 1).drop_last() =~= nodes.take(i as int));
        if str_eq(root_nodes[i].node_type.as_str(), "app") {
            if count == 0 {
                first = i;
            }
            count = count + 1;
        }
        i = i + 1;
    }
    assert(nodes.take(i as int) =~= nodes);
    if count == 0 {
        Err(XmlParseError::NoRootComponent)
    } else if count == 1 {
        Ok(root_nodes[first].copy())
    } else {
        Err(XmlParseError::MultipleRootComponents)
    }
}

/// The components found among the root nodes: names, each with the position of its node in
/// the root nodes. Each name occurs once.
struct ComponentMap {
    entries: Vec<(String, usize)>,
}

/// The map from component name to children that the entries stand for.
pub open spec fn component_map_view(entries: Seq<(String, usize)>, nodes: Seq<SpecXmlNode>) -> Map<
    Seq<char>,
    Seq<SpecXmlNode>,
> {
    Map::new(
        |k: Seq<char>| exists|i: int| 0 <= i < entries.len() && #[trigger] entries[i].0@ == k,
        |k: Seq<char>|
            nodes[entries[choose|i: int| 0 <= i < entries.len() && #[trigger] entries[i].0@ == k].1 as int].children,
    )
}

impl ComponentMap {
    spec fn wf(self, nodes: Seq<SpecXmlNode>) -> bool {
        &&& forall|i: int| 0 <= i < self.entries@.len() ==> (#[trigger] self.entries@[i]).1 < nodes.len()
        &&& forall|i: int, j: int|
            0 <= i < j < self.entries@.len() ==> (#[trigger] self.entries@[i]).0@ != (
            #[trigger] self.entries@[j]).0@
    }

    spec fn map_view(self, nodes: Seq<SpecXmlNode>) -> Map<Seq<char>, Seq<SpecXmlNode>> {
        component_map_view(self.entries@, nodes)
    }

    proof fn lemma_entry(self, nodes: Seq<SpecXmlNode>, i: int)
        requires
            self.wf(nodes),
            0 <= i < self.entries@.len(),
        ensures
            self.map_view(nodes).contains_key(self.entries@[i].0@),
            self.map_view(nodes)[self.entries@[i].0@] == nodes[self.entries@[i].1 as int].children,
    {
        let e = self.entries@;
        let k = e[i].0@;
        assert(e[i].0@ == k);
        let j = choose|j: int| 0 <= j < e.len() && #[trigger] e[j].0@ == k;
        if j != i {
            if j < i {
                assert(e[j].0@ != e[i].0@);
            } else {
                assert(e[i].0@ != e[j].0@);
            }
        }
    }

    fn new() -> (r: ComponentMap)
        ensures
            r.entries@.len() == 0,
            forall|nodes: Seq<SpecXmlNode>| #[trigger] r.map_view(nodes) == Map::<Seq<char>, Seq<SpecXmlNode>>::empty(),
            forall|nodes: Seq<SpecXmlNode>| #[trigger] r.wf(nodes),
    {
        let r = ComponentMap { entries: Vec::new() };
        assert forall|nodes: Seq<SpecXmlNode>| #[trigger] r.map_view(nodes) == Map::<Seq<char>, Seq<SpecXmlNode>>::empty() by {
            assert(r.map_view(nodes) =~= Map::<Seq<char>, Seq<SpecXmlNode>>::empty());
        }
        r
    }

    fn is_empty(&self, Ghost(nodes): Ghost<Seq<SpecXmlNode>>) -> (r: bool)
        requires
            self.wf(nodes),
        ensures
            r == (self.map_view(nodes) == Map::<Seq<char>, Seq<SpecXmlNode>>::empty()),
    {
        if self.entries.len() == 0 {
            assert(self.map_view(nodes) =~= Map::<Seq<char>, Seq<SpecXmlNode>>::empty());
            true
        } else {
            proof {
                self.lemma_entry(nodes, 0);
                assert(!Map::<Seq<char>, Seq<SpecXmlNode>>::empty().contains_key(self.entries@[0].0@));
            }
            false
        }
    }

    /// The position of the node of the component called `name`, if any.
    fn get(&self, name: &str, Ghost(nodes): Ghost<Seq<SpecXmlNode>>) -> (r: Option<usize>)
        requires
            self.wf(nodes),
        ensures
            match r {
                Some(i) => self.map_view(nodes).contains_key(name@) && i < nodes.len()
                    && self.map_view(nodes)[name@] == nodes[i as int].children,
                None => !self.map_view(nodes).contains_key(name@),
            },
    {
        let mut i: usize = 0;
        while i < self.entries.len()
            invariant
                self.wf(nodes),
                i <= self.entries@.len(),
                forall|j: int| 0 <= j < i ==> (#[trigger] self.entries@[j]).0@ != name@,
            decreases self.entries@.len() - i,
        {
            if str_eq(self.entries[i].0.as_str(), name) {
                proof {
                    self.lemma_entry(nodes, i as int);
                }
                return Some(self.entries[i].1);
            }
            i = i + 1;
        }
        None
    }

    /// Maps `name` to the children of `nodes[index]`, replacing an earlier entry of that name.
    fn insert(&mut self, name: String, index: usize, Ghost(nodes): Ghost<Seq<SpecXmlNode>>)
        requires
            old(self).wf(nodes),
            index < nodes.len(),
        ensures
            final(self).wf(nodes),
            final(self).map_view(nodes) == old(self).map_view(nodes).insert(name@, nodes[index as int].children),
    {
        let ghost e0 = self.entries@;
        let ghost m0 = self.map_view(nodes);
        let ghost kv = name@;
        let mut i: usize = 0;
        while i < self.entries.len()
            invariant
                self.entries@ == e0,
                kv == name@,
                i <= e0.len(),
                forall|j: int| 0 <= j < i ==> (#[trigger] e0[j]).0@ != kv,
            ensures
                i <= e0.len(),
                forall|j: int| 0 <= j < i ==> (#[trigger] e0[j]).0@ != kv,
                i < e0.len() ==> e0[i as int].0@ == kv,
            decreases e0.len() - i,
        {
            let found = str_eq(self.entries[i].0.as_str(), name.as_str());
            assert(self.entries@[i as int] == e0[i as int]);
            if found {
                assert(e0[i as int].0@ == kv);
                break;
            }
            assert(e0[i as int].0@ != kv);
            i = i + 1;
        }
        let ghost m = m0.insert(kv, nodes[index as int].children);
        if i < self.entries.len() {
            self.entries.set(i, (name, index));
            proof {
                let e = self.entries@;
                assert forall|a: int, b: int| 0 <= a < b < e.len() implies (#[trigger] e[a]).0@ != (#[trigger] e[b]).0@ by {
                    assert(e0[a].0@ != e0[b].0@);
                }
                assert forall|k: Seq<char>| #[trigger] self.map_view(nodes).contains_key(k) == m.contains_key(k) by {
                    if self.map_view(nodes).contains_key(k) {
                        let j = choose|j: int| 0 <= j < e.len() && #[trigger] e[j].0@ == k;
                        if j != i {
                            old(self).lemma_entry(nodes, j);
                        }
                    }
                    if m0.contains_key(k) {
                        let j = choose|j: int| 0 <= j < e0.len() && #[trigger] e0[j].0@ == k;
                        if j != i {
                            self.lemma_entry(nodes, j);
                        } else {
                            self.lemma_entry(nodes, i as int);
                        }
                    }
                    if k == kv {
                        self.lemma_entry(nodes, i as int);
                    }
                }
                assert forall|k: Seq<char>| #[trigger] self.map_view(nodes).contains_key(k) implies self.map_view(nodes)[k] == m[k] by {
                    let j = choose|j: int| 0 <= j < e.len() && #[trigger] e[j].0@ == k;
                    self.lemma_entry(nodes, j);
                    if j != i {
                        old(self).lemma_entry(nodes, j);
                    }
                }
                assert(self.map_view(nodes) =~= m);
            }
        } else {
            self.entries.push((name, index));
            proof {
                let e = self.entries@;
                assert forall|a: int, b: int| 0 <= a < b < e.len() implies (#[trigger] e[a]).0@ != (#[trigger] e[b]).0@ by {
                    if b < e0.len() {
                        assert(e0[a].0@ != e0[b].0@);
                    } else {
                        assert(e0[a].0@ != kv);
                    }
                }
                assert forall|k: Seq<char>| #[trigger] self.map_view(nodes).contains_key(k) == m.contains_key(k) by {
                    if self.map_view(nodes).contains_key(k) {
                        let j = choose|j: int| 0 <= j < e.len() && #[trigger] e[j].0@ == k;
                        if j < e0.len() {
                            old(self).lemma_entry(nodes, j);
                        }
                    }
                    if m0.contains_key(k) {
                        let j = choose|j: int| 0 <= j < e0.len() && #[trigger] e0[j].0@ == k;
                        self.lemma_entry(nodes, j);
                    }
                    if k == kv {
                        self.lemma_entry(nodes, i as int);
                    }
                }
                assert forall|k: Seq<char>| #[trigger] self.map_view(nodes).contains_key(k) implies self.map_view(nodes)[k] == m[k] by {
                    let j = choose|j: int| 0 <= j < e.len() && #[trigger] e[j].0@ == k;
                    self.lemma_entry(nodes, j);
                    if j < e0.len() {
                        old(self).lemma_entry(nodes, j);
                    }
                }
                assert(self.map_view(nodes) =~= m);
            }
        }
    }
}

proof fn lemma_components_err_stays(nodes: Seq<SpecXmlNode>, n: int)
    requires
        0 <= n <= nodes.len(),
        spec_components(nodes.take(n)) is Err,
    ensures
        spec_components(nodes) == spec_components(nodes.take(n)),
    decreases nodes.len(),
{
    if n == nodes.len() {
        assert(nodes.take(n) =~= nodes);
    } else {
        assert(nodes.drop_last().take(n) =~= nodes.take(n));
        lemma_components_err_stays(nodes.drop_last(), n);
    }
}

/// Collect the `<component>` root nodes by name; one without a `name` attribute is an error.
fn get_xml_components(root_nodes: &[XmlNode]) -> (r: Result<ComponentMap, XmlParseError>)
    ensures
        match r {
            Ok(m) => m.wf(nodes_view(root_nodes@)) && spec_components(nodes_view(root_nodes@)) == Ok::<
                Map<Seq<char>, Seq<SpecXmlNode>>,
                SpecXmlParseError,
            >(m.map_view(nodes_view(root_nodes@))),
            Err(e) => spec_components(nodes_view(root_nodes@)) == Err::<
                Map<Seq<char>, Seq<SpecXmlNode>>,
                SpecXmlParseError,
            >(e@),
        },
{
    let ghost nodes = nodes_view(root_nodes@);
    let mut map = ComponentMap::new();
    let mut i: usize = 0;
    assert(nodes.take(0) =~= Seq::<SpecXmlNode>::empty());
    while i < root_nodes.len()
        invariant
            nodes == nodes_view(root_nodes@),
            i <= root_nodes@.len(),
            map.wf(nodes),
            spec_components(nodes.take(i as int)) == Ok::<
                Map<Seq<char>, Seq<SpecXmlNode>>,
                SpecXmlParseError,
            >(map.map_view(nodes)),
        decreases root_nodes@.len() - i,
    {
        assert(nodes.take(i + 1).drop_last() =~= nodes.take(i as int));
        let node = &root_nodes[i];
        if str_eq(node.node_type.as_str(), "component") {
            match node.attributes.get("name") {
                None => {
                    proof {
                        lemma_components_err_stays(nodes, i + 1);
                    }
                    return Err(XmlParseError::ComponentWithoutName);
                },
                Some(name) => {
                    map.insert(name.clone(), i, Ghost(nodes));
                },
            }
        }
        i = i + 1;
    }
    assert(nodes.take(i as int) =~= nodes);
    Ok(map)
}

proof fn lemma_expand_all_prefix(map: Map<Seq<char>, Seq<SpecXmlNode>>, s: Seq<SpecXmlNode>, fuel: nat, i: int)
    requires
        spec_expand_all(map, s, fuel) is Some,
        0 <= i <= s.len(),
    ensures
        spec_expand_all(map, s.take(i), fuel) is Some,
        i < s.len() ==> spec_expand(map, s[i], fuel) is Some,
    decreases s.len(),
{
    if i == s.len() {
        assert(s.take(i) =~= s);
    } else {
        assert(s.drop_last().take(i) =~= s.take(i));
        lemma_expand_all_prefix(map, s.drop_last(), fuel, i);
    }
}

/// Expands each of `nodes` in turn.
fn expand_nodes(
    nodes: &Vec<XmlNode>,
    root_nodes: &[XmlNode],
    map: &ComponentMap,
    Ghost(fuel): Ghost<nat>,
) -> (r: Vec<XmlNode>)
    requires
        map.wf(nodes_view(root_nodes@)),
        spec_expand_all(map.map_view(nodes_view(root_nodes@)), nodes_view(nodes@), fuel) is Some,
    ensures
        nodes_view(r@) == spec_expand_all(map.map_view(nodes_view(root_nodes@)), nodes_view(nodes@), fuel)->0,
    decreases fuel, 1int,
{
    let ghost m = map.map_view(nodes_view(root_nodes@));
    let ghost s = nodes_view(nodes@);
    let mut r: Vec<XmlNode> = Vec::new();
    let mut i: usize = 0;
    assert(s.take(0) =~= Seq::<SpecXmlNode>::empty());
    assert(nodes_view(r@) =~= Seq::<SpecXmlNode>::empty());
    while i < nodes.len()
        invariant
            m == map.map_view(nodes_view(root_nodes@)),
            map.wf(nodes_view(root_nodes@)),
            s == nodes_view(nodes@),
            spec_expand_all(m, s, fuel) is Some,
            i <= nodes@.len(),
            spec_expand_all(m, s.take(i as int), fuel) is Some,
            nodes_view(r@) == spec_expand_all(m, s.take(i as int), fuel)->0,
        decreases nodes@.len() - i,
    {
        proof {
            lemma_expand_all_prefix(m, s, fuel, i as int);
            lemma_expand_all_prefix(m, s, fuel, i + 1);
            assert(s.take(i + 1).drop_last() =~= s.take(i as int));
        }
        let e = expand_component(&nodes[i], root_nodes, map, Ghost(fuel));
        let ghost prev = r@;
        r.push(e);
        assert(nodes_view(r@) =~= nodes_view(prev).push(e@));
        i = i + 1;
    }
    assert(s.take(i as int) =~= s);
    r
}

/// Expands a single node: a node whose tag names a component becomes a `div` that keeps the
/// node's attributes and text and holds the component's children, themselves expanded.
fn expand_component(
    node: &XmlNode,
    root_nodes: &[XmlNode],
    map: &ComponentMap,
    Ghost(fuel): Ghost<nat>,
) -> (r: XmlNode)
    requires
        map.wf(nodes_view(root_nodes@)),
        spec_expand(map.map_view(nodes_view(root_nodes@)), node@, fuel) is Some,
    ensures
        r@ == spec_expand(map.map_view(nodes_view(root_nodes@)), node@, fuel)->0,
    decreases fuel, 0int,
{
    let ghost rn = nodes_view(root_nodes@);
    let text = match &node.text {
        Some(t) => Some(t.clone()),
        None => None,
    };
    proof {
        lemma_children_view(*node);
    }
    match map.get(node.node_type.as_str(), Ghost(rn)) {
        Some(idx) => {
            proof {
                lemma_children_view(root_nodes@[idx as int]);
            }
            let children = expand_nodes(&root_nodes[idx].children, root_nodes, map, Ghost((fuel - 1) as nat));
            let r = XmlNode {
                node_type: String::from_str("div"),
                attributes: node.attributes.copy(),
                children,
                text,
            };
            proof {
                lemma_children_view(r);
            }
            r
        },
        None => {
            let children = expand_nodes(&node.children, root_nodes, map, Ghost((fuel - 1) as nat));
            let r = XmlNode {
                node_type: node.node_type.clone(),
                attributes: node.attributes.copy(),
                children,
                text,
            };
            proof {
                lemma_children_view(r);
            }
            assert(r@ =~= spec_expand(map.map_view(rn), node@, fuel)->0);
            r
        },
    }
}

/// Expands all `<component>`s used in the `<app>` node: finds the one `<app>` root node and the
/// components among the root nodes, then replaces each use of a component in the app's
/// children by its expansion.
pub fn expand_xml_components(root_nodes: &[XmlNode]) -> (r: Result<XmlNode, XmlParseError>)
    requires
        expansion_ends_for(nodes_view(root_nodes@)),
    ensures
        node_result_view(r) == spec_expand_xml_components(nodes_view(root_nodes@)),
{
    let ghost rn = nodes_view(root_nodes@);
    let root_node = match get_app_node(root_nodes) {
        Ok(n) => n,
        Err(e) => return Err(e),
    };
    let component_map = match get_xml_components(root_nodes) {
        Ok(m) => m,
        Err(e) => return Err(e),
    };
    if component_map.is_empty(Ghost(rn)) {
        return Ok(root_node);
    }
    let ghost m = component_map.map_view(rn);
    let ghost fuel = choose|f: nat| #[trigger] spec_expand_all(m, root_node@.children, f) is Some;
    proof {
        lemma_children_view(root_node);
    }
    let children = expand_nodes(&root_node.children, root_nodes, &component_map, Ghost(fuel));
    let mut root_node = root_node;
    let ghost app = root_node@;
    root_node.children = children;
    proof {
        lemma_children_view(root_node);
    }
    assert(root_node@ =~= (SpecXmlNode { children: spec_expanded(m, app.children), ..app }));
    Ok(root_node)
}

/// No node of the tree has a tag that names a component, except `div`, which expansion
/// produces.
pub open spec fn free_of_components(map: Map<Seq<char>, Seq<SpecXmlNode>>, n: SpecXmlNode) -> bool
    decreases n,
{
    &&& (n.node_type == "div"@ || !map.contains_key(n.node_type))
    &&& forall|i: int|
        0 <= i < n.children.len() ==> free_of_components(map, #[trigger] n.children[i])
}

proof fn lemma_expand_free(map: Map<Seq<char>, Seq<SpecXmlNode>>, node: SpecXmlNode, fuel: nat)
    ensures
        spec_expand(map, node, fuel) matches Some(r) ==> free_of_components(map, r),
    decreases fuel, 0int,
{
    if fuel > 0 {
        let kids = if map.contains_key(node.node_type) {
            map[node.node_type]
        } else {
            node.children
        };
        lemma_expand_all_free(map, kids, (fuel - 1) as nat);
        if let Some(r) = spec_expand(map, node, fuel) {
        }
    }
}

proof fn lemma_expand_all_free(map: Map<Seq<char>, Seq<SpecXmlNode>>, nodes: Seq<SpecXmlNode>, fuel: nat)
    ensures
        spec_expand_all(map, nodes, fuel) matches Some(rs) ==> forall|i: int|
            0 <= i < rs.len() ==> free_of_components(map, #[trigger] rs[i]),
    decreases fuel, nodes.len() + 1,
{
    if nodes.len() > 0 {
        lemma_expand_all_free(map, nodes.drop_last(), fuel);
        lemma_expand_free(map, nodes.last(), fuel);
    }
}

proof fn lemma_free_of_empty(n: SpecXmlNode)
    ensures
        free_of_components(Map::empty(), n),
    decreases n,
{
    assert forall|i: int| 0 <= i < n.children.len() implies free_of_components(Map::empty(), #[trigger] n.children[i]) by {
        lemma_free_of_empty(n.children[i]);
    }
}

/// After expansion no node among the app's children, at any depth, has a tag that names a
/// component, except `div`, the tag that expansion gives.
pub proof fn lemma_expansion_leaves_no_component(nodes: Seq<SpecXmlNode>)
    requires
        expansion_ends_for(nodes),
    ensures
        spec_expand_xml_components(nodes) matches Ok(app) ==> spec_components(nodes) matches Ok(m)
            && forall|i: int| 0 <= i < app.children.len() ==> free_of_components(m, #[trigger] app.children[i]),
{
    if let Ok(app) = spec_expand_xml_components(nodes) {
        let a = spec_get_app_node(nodes)->Ok_0;
        let m = spec_components(nodes)->Ok_0;
        if m == Map::<Seq<char>, Seq<SpecXmlNode>>::empty() {
            assert forall|i: int| 0 <= i < app.children.len() implies free_of_components(m, #[trigger] app.children[i]) by {
                lemma_free_of_empty(app.children[i]);
            }
        } else {
            let fuel = choose|f: nat| #[trigger] spec_expand_all(m, a.children, f) is Some;
            lemma_expand_all_free(m, a.children, fuel);
        }
    }
}

/// Expansion with more fuel gives the same result as with less, wherever the lesser fuel
/// suffices.
pub proof fn lemma_expand_more_fuel(map: Map<Seq<char>, Seq<SpecXmlNode>>, node: SpecXmlNode, f1: nat, f2: nat)
    requires
        f1 <= f2,
        spec_expand(map, node, f1) is Some,
    ensures
        spec_expand(map, node, f2) == spec_expand(map, node, f1),
    decreases f1, 0int,
{
    let kids = if map.contains_key(node.node_type) {
        map[node.node_type]
    } else {
        node.children
    };
    lemma_expand_all_more_fuel(map, kids, (f1 - 1) as nat, (f2 - 1) as nat);
}

/// Expansion of a sequence with more fuel gives the same result as with less, wherever the
/// lesser fuel suffices.
pub proof fn lemma_expand_all_more_fuel(
    map: Map<Seq<char>, Seq<SpecXmlNode>>,
    nodes: Seq<SpecXmlNode>,
    f1: nat,
    f2: nat,
)
    requires
        f1 <= f2,
        spec_expand_all(map, nodes, f1) is Some,
    ensures
        spec_expand_all(map, nodes, f2) == spec_expand_all(map, nodes, f1),
    decreases f1, nodes.len() + 1,
{
    if nodes.len() > 0 {
        lemma_expand_all_more_fuel(map, nodes.drop_last(), f1, f2);
        lemma_expand_more_fuel(map, nodes.last(), f1, f2);
    }
}

/// Every fuel at which expansion of the nodes ends gives the same result, `spec_expanded`.
pub proof fn lemma_expand_fuel_independent(map: Map<Seq<char>, Seq<SpecXmlNode>>, nodes: Seq<SpecXmlNode>, fuel: nat)
    requires
        spec_expand_all(map, nodes, fuel) is Some,
    ensures
        expansion_terminates(map, nodes),
        spec_expand_all(map, nodes, fuel) == Some(spec_expanded(map, nodes)),
{
    assert(expansion_terminates(map, nodes));
    let g = choose|f: nat| #[trigger] spec_expand_all(map, nodes, f) is Some;
    if fuel <= g {
        lemma_expand_all_more_fuel(map, nodes, fuel, g);
    } else {
        lemma_expand_all_more_fuel(map, nodes, g, fuel);
    }
}

/// A node with no component tag anywhere in it, where `div` names no component, expands to
/// itself; the result is the fuel that suffices.
proof fn lemma_expand_identity(map: Map<Seq<char>, Seq<SpecXmlNode>>, n: SpecXmlNode) -> (fuel: nat)
    requires
        free_of_components(map, n),
        !map.contains_key("div"@),
    ensures
        spec_expand(map, n, fuel) == Some(n),
    decreases n, 0int,
{
    let g = lemma_expand_all_identity(map, n.children);
    assert(SpecXmlNode { children: n.children, ..n } == n);
    g + 1
}

/// Nodes with no component tag anywhere in them, where `div` names no component, expand to
/// themselves; the result is the fuel that suffices.
proof fn lemma_expand_all_identity(map: Map<Seq<char>, Seq<SpecXmlNode>>, s: Seq<SpecXmlNode>) -> (fuel: nat)
    requires
        forall|i: int| 0 <= i < s.len() ==> free_of_components(map, #[trigger] s[i]),
        !map.contains_key("div"@),
    ensures
        spec_expand_all(map, s, fuel) == Some(s),
    decreases s, 1int,
{
    if s.len() == 0 {
        assert(spec_expand_all(map, s, 0) == Some(Seq::<SpecXmlNode>::empty()));
        assert(s =~= Seq::<SpecXmlNode>::empty());
        0
    } else {
        let init = s.drop_last();
        assert forall|i: int| 0 <= i < init.len() implies free_of_components(map, #[trigger] init[i]) by {
            assert(init[i] == s[i]);
        }
        let f1 = lemma_expand_all_identity(map, init);
        assert(free_of_components(map, s[s.len() - 1]));
        let f2 = lemma_expand_identity(map, s.last());
        let f = if f1 <= f2 {
            f2
        } else {
            f1
        };
        lemma_expand_all_more_fuel(map, init, f1, f);
        lemma_expand_more_fuel(map, s.last(), f2, f);
        assert(init.push(s.last()) =~= s);
        f
    }
}

/// Expanding twice gives what expanding once gives, where `div`, the tag that expansion
/// produces, names no component and the expansion ends.
pub proof fn lemma_expand_idempotent(map: Map<Seq<char>, Seq<SpecXmlNode>>, nodes: Seq<SpecXmlNode>)
    requires
        expansion_terminates(map, nodes),
        !map.contains_key("div"@),
    ensures
        expansion_terminates(map, spec_expanded(map, nodes)),
        spec_expanded(map, spec_expanded(map, nodes)) == spec_expanded(map, nodes),
{
    let fuel = choose|f: nat| #[trigger] spec_expand_all(map, nodes, f) is Some;
    let r = spec_expanded(map, nodes);
    lemma_expand_all_free(map, nodes, fuel);
    let g = lemma_expand_all_identity(map, r);
    lemma_expand_fuel_independent(map, r, g);
}

/// Expanding an expanded node again gives that node back, at every fuel that suffices, and
/// some fuel suffices; `div`, the tag that expansion produces, must name no component.
pub proof fn lemma_expand_node_idempotent(map: Map<Seq<char>, Seq<SpecXmlNode>>, node: SpecXmlNode, fuel: nat)
    requires
        spec_expand(map, node, fuel) is Some,
        !map.contains_key("div"@),
    ensures
        exists|g: nat| #[trigger] spec_expand(map, spec_expand(map, node, fuel)->0, g) is Some,
        forall|g: nat| #[trigger] spec_expand(map, spec_expand(map, node, fuel)->0, g) is Some
            ==> spec_expand(map, spec_expand(map, node, fuel)->0, g) == spec_expand(map, node, fuel),
{
    let r = spec_expand(map, node, fuel)->0;
    lemma_expand_free(map, node, fuel);
    let g0 = lemma_expand_identity(map, r);
    assert(spec_expand(map, r, g0) is Some);
    assert forall|g: nat| #[trigger] spec_expand(map, r, g) is Some implies spec_expand(map, r, g) == Some(r) by {
        if g <= g0 {
            lemma_expand_more_fuel(map, r, g, g0);
        } else {
            lemma_expand_more_fuel(map, r, g0, g);
        }
    }
}

/// Expands each of `nodes` within `fuel` levels of recursion; `None` where that does not
/// suffice.
fn expand_nodes_within(nodes: &Vec<XmlNode>, root_nodes: &[XmlNode], map: &ComponentMap, fuel: usize) -> (r: Option<Vec<XmlNode>>)
    requires
        map.wf(nodes_view(root_nodes@)),
    ensures
        match r {
            Some(v) => spec_expand_all(map.map_view(nodes_view(root_nodes@)), nodes_view(nodes@), fuel as nat)
                == Some(nodes_view(v@)),
            None => spec_expand_all(map.map_view(nodes_view(root_nodes@)), nodes_view(nodes@), fuel as nat) is None,
        },
    decreases fuel, 1int,
{
    let ghost m = map.map_view(nodes_view(root_nodes@));
    let ghost s = nodes_view(nodes@);
    let mut r: Vec<XmlNode> = Vec::new();
    let mut i: usize = 0;
    assert(s.take(0) =~= Seq::<SpecXmlNode>::empty());
    assert(nodes_view(r@) =~= Seq::<SpecXmlNode>::empty());
    while i < nodes.len()
        invariant
            m == map.map_view(nodes_view(root_nodes@)),
            map.wf(nodes_view(root_nodes@)),
            s == nodes_view(nodes@),
            i <= nodes@.len(),
            spec_expand_all(m, s.take(i as int), fuel as nat) == Some(nodes_view(r@)),
        decreases nodes@.len() - i,
    {
        assert(s.take(i + 1).drop_last() =~= s.take(i as int));
        match expand_component_within(&nodes[i], root_nodes, map, fuel) {
            Some(e) => {
                let ghost prev = r@;
                r.push(e);
                assert(nodes_view(r@) =~= nodes_view(prev).push(e@));
            },
            None => {
                proof {
                    if spec_expand_all(m, s, fuel as nat) is Some {
                        lemma_expand_all_prefix(m, s, fuel as nat, i as int);
                    }
                }
                return None;
            },
        }
        i = i + 1;
    }
    assert(s.take(i as int) =~= s);
    Some(r)
}

/// Expands a single node within `fuel` levels of recursion; `None` where that does not
/// suffice.
fn expand_component_within(node: &XmlNode, root_nodes: &[XmlNode], map: &ComponentMap, fuel: usize) -> (r: Option<XmlNode>)
    requires
        map.wf(nodes_view(root_nodes@)),
    ensures
        match r {
            Some(n) => spec_expand(map.map_view(nodes_view(root_nodes@)), node@, fuel as nat) == Some(n@),
            None => spec_expand(map.map_view(nodes_view(root_nodes@)), node@, fuel as nat) is None,
        },
    decreases fuel, 0int,
{
    if fuel == 0 {
        return None;
    }
    let ghost rn = nodes_view(root_nodes@);
    proof {
        lemma_children_view(*node);
    }
    let (node_type, children) = match map.get(node.node_type.as_str(), Ghost(rn)) {
        Some(idx) => {
            proof {
                lemma_children_view(root_nodes@[idx as int]);
            }
            match expand_nodes_within(&root_nodes[idx].children, root_nodes, map, fuel - 1) {
                Some(c) => (String::from_str("div"), c),
                None => return None,
            }
        },
        None => match expand_nodes_within(&node.children, root_nodes, map, fuel - 1) {
            Some(c) => (node.node_type.clone(), c),
            None => return None,
        },
    };
    let text = match &node.text {
        Some(t) => Some(t.clone()),
        None => None,
    };
    let r = XmlNode { node_type, attributes: node.attributes.copy(), children, text };
    proof {
        lemma_children_view(r);
    }
    assert(r@ =~= spec_expand(map.map_view(rn), node@, fuel as nat)->0);
    Some(r)
}

/// Expands the components used in the `<app>` node as `expand_xml_components` does, with at
/// most `fuel` levels of nested expansion. Returns `None` exactly where the `<app>` node and
/// the components are found, there is at least one component, and expanding the app's
/// children needs more than `fuel` levels, as it does for ever where a component contains
/// itself. A result other than `None` shows that the expansion ends.
pub fn expand_xml_components_within(root_nodes: &[XmlNode], fuel: usize) -> (r: Option<Result<XmlNode, XmlParseError>>)
    ensures
        match r {
            Some(res) => expansion_ends_for(nodes_view(root_nodes@)) && node_result_view(res)
                == spec_expand_xml_components(nodes_view(root_nodes@)),
            None => spec_get_app_node(nodes_view(root_nodes@)) matches Ok(app) && spec_components(
                nodes_view(root_nodes@),
            ) matches Ok(m) && m != Map::<Seq<char>, Seq<SpecXmlNode>>::empty() && spec_expand_all(
                m,
                app.children,
                fuel as nat,
            ) is None,
        },
{
    let ghost rn = nodes_view(root_nodes@);
    let root_node = match get_app_node(root_nodes) {
        Ok(n) => n,
        Err(e) => return Some(Err(e)),
    };
    let component_map = match get_xml_components(root_nodes) {
        Ok(m) => m,
        Err(e) => return Some(Err(e)),
    };
    if component_map.is_empty(Ghost(rn)) {
        return Some(Ok(root_node));
    }
    let ghost m = component_map.map_view(rn);
    proof {
        lemma_children_view(root_node);
    }
    let children = match expand_nodes_within(&root_node.children, root_nodes, &component_map, fuel) {
        Some(c) => c,
        None => return None,
    };
    proof {
        lemma_expand_fuel_independent(m, root_node@.children, fuel as nat);
    }
    let mut root_node = root_node;
    let ghost app = root_node@;
    root_node.children = children;
    proof {
        lemma_children_view(root_node);
    }
    assert(root_node@ =~= (SpecXmlNode { children: spec_expanded(m, app.children), ..app }));
    Some(Ok(root_node))
}

proof fn lemma_nodes_of_type_none(nodes: Seq<SpecXmlNode>, t: Seq<char>)
    requires
        forall|j: int| 0 <= j < nodes.len() ==> (#[trigger] nodes[j]).node_type != t,
    ensures
        nodes_of_type(nodes, t).len() == 0,
    decreases nodes.len(),
{
    if nodes.len() > 0 {
        assert(nodes.last() == nodes[nodes.len() - 1]);
        lemma_nodes_of_type_none(nodes.drop_last(), t);
    }
}

proof fn lemma_nodes_of_type_one(nodes: Seq<SpecXmlNode>, t: Seq<char>, i: int)
    requires
        0 <= i < nodes.len(),
        nodes[i].node_type == t,
        forall|j: int| 0 <= j < nodes.len() && j != i ==> (#[trigger] nodes[j]).node_type != t,
    ensures
        nodes_of_type(nodes, t) == seq![nodes[i]],
    decreases nodes.len(),
{
    let init = nodes.drop_last();
    if i == nodes.len() - 1 {
        lemma_nodes_of_type_none(init, t);
        assert(nodes_of_type(init, t) =~= Seq::<SpecXmlNode>::empty());
        assert(Seq::<SpecXmlNode>::empty().push(nodes[i]) =~= seq![nodes[i]]);
    } else {
        assert(nodes.last() == nodes[nodes.len() - 1]);
        assert forall|j: int| 0 <= j < init.len() && j != i implies (#[trigger] init[j]).node_type != t by {
            assert(init[j] == nodes[j]);
        }
        lemma_nodes_of_type_one(init, t, i);
    }
}

proof fn lemma_nodes_of_type_grows(nodes: Seq<SpecXmlNode>, t: Seq<char>, k: int)
    requires
        0 <= k <= nodes.len(),
    ensures
        nodes_of_type(nodes.take(k), t).len() <= nodes_of_type(nodes, t).len(),
    decreases nodes.len(),
{
    if k == nodes.len() {
        assert(nodes.take(k) =~= nodes);
    } else {
        assert(nodes.drop_last().take(k) =~= nodes.take(k));
        lemma_nodes_of_type_grows(nodes.drop_last(), t, k);
    }
}

proof fn lemma_nodes_of_type_two(nodes: Seq<SpecXmlNode>, t: Seq<char>, i: int, j: int)
    requires
        0 <= i < j < nodes.len(),
        nodes[i].node_type == t,
        nodes[j].node_type == t,
    ensures
        nodes_of_type(nodes, t).len() >= 2,
    decreases nodes.len(),
{
    let p = nodes.take(j + 1);
    lemma_nodes_of_type_grows(nodes, t, j + 1);
    assert(p.drop_last() =~= nodes.take(j));
    assert(p.last() == nodes[j]);
    let q = nodes.take(j);
    assert(q.take(i + 1).drop_last() =~= q.take(i));
    assert(q.take(i + 1).last() == nodes[i]);
    lemma_nodes_of_type_grows(q, t, i + 1);
    assert(nodes_of_type(q.take(i + 1), t).len() >= 1);
}

/// The app node found is the one root node tagged `app`, unchanged: its attributes, children
/// and text included.
pub proof fn lemma_get_app_node_is_the_app(nodes: Seq<SpecXmlNode>, i: int)
    requires
        0 <= i < nodes.len(),
        nodes[i].node_type == "app"@,
        forall|j: int| 0 <= j < nodes.len() && j != i ==> (#[trigger] nodes[j]).node_type != "app"@,
    ensures
        spec_get_app_node(nodes) == Ok::<SpecXmlNode, SpecXmlParseError>(nodes[i]),
{
    lemma_nodes_of_type_one(nodes, "app"@, i);
}

/// With no root node tagged `app` there is no app node.
pub proof fn lemma_get_app_node_none(nodes: Seq<SpecXmlNode>)
    requires
        forall|j: int| 0 <= j < nodes.len() ==> (#[trigger] nodes[j]).node_type != "app"@,
    ensures
        spec_get_app_node(nodes) == Err::<SpecXmlNode, SpecXmlParseError>(SpecXmlParseError::NoRootComponent),
{
    lemma_nodes_of_type_none(nodes, "app"@);
}

/// With two root nodes tagged `app` there are too many.
pub proof fn lemma_get_app_node_two(nodes: Seq<SpecXmlNode>, i: int, j: int)
    requires
        0 <= i < j < nodes.len(),
        nodes[i].node_type == "app"@,
        nodes[j].node_type == "app"@,
    ensures
        spec_get_app_node(nodes) == Err::<SpecXmlNode, SpecXmlParseError>(SpecXmlParseError::MultipleRootComponents),
{
    lemma_nodes_of_type_two(nodes, "app"@, i, j);
}

/// Expanding a sequence gives one node per node, in order, each the expansion of the node at
/// the same place.
pub proof fn lemma_expand_all_pointwise(map: Map<Seq<char>, Seq<SpecXmlNode>>, nodes: Seq<SpecXmlNode>, fuel: nat)
    requires
        spec_expand_all(map, nodes, fuel) is Some,
    ensures
        spec_expand_all(map, nodes, fuel)->0.len() == nodes.len(),
        forall|i: int| 0 <= i < nodes.len() ==> #[trigger] spec_expand(map, nodes[i], fuel) == Some(
            spec_expand_all(map, nodes, fuel)->0[i],
        ),
    decreases nodes.len(),
{
    if nodes.len() > 0 {
        let init = nodes.drop_last();
        lemma_expand_all_pointwise(map, init, fuel);
        assert forall|i: int| 0 <= i < nodes.len() implies #[trigger] spec_expand(map, nodes[i], fuel) == Some(
            spec_expand_all(map, nodes, fuel)->0[i],
        ) by {
            if i < nodes.len() - 1 {
                assert(nodes[i] == init[i]);
            }
        }
    }
}

/// A node whose tag names a component expands to a `div` with the node's attributes and text
/// whose children are exactly the expansions of the component's children, in order, whatever
/// children the node itself had. A node whose tag names no component keeps its tag,
/// attributes and text, and its children are the expansions of its own children, in order.
pub proof fn lemma_expand_component_shape(map: Map<Seq<char>, Seq<SpecXmlNode>>, node: SpecXmlNode, fuel: nat)
    requires
        spec_expand(map, node, fuel) is Some,
    ensures
        ({
            let r = spec_expand(map, node, fuel)->0;
            let kids = if map.contains_key(node.node_type) {
                map[node.node_type]
            } else {
                node.children
            };
            &&& fuel > 0
            &&& r.attributes == node.attributes
            &&& r.text == node.text
            &&& r.node_type == if map.contains_key(node.node_type) {
                "div"@
            } else {
                node.node_type
            }
            &&& r.children.len() == kids.len()
            &&& forall|i: int| 0 <= i < kids.len() ==> spec_expand(map, #[trigger] kids[i], (fuel - 1) as nat)
                == Some(r.children[i])
        }),
{
    let kids = if map.contains_key(node.node_type) {
        map[node.node_type]
    } else {
        node.children
    };
    lemma_expand_all_pointwise(map, kids, (fuel - 1) as nat);
}

} // verus!
