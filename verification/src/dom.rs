//! The document tree: text leaves and elements with attributes.

use vstd::prelude::*;
use vstd::hash_map::StringHashMap;
use crate::scan::{has_word, holds, words};

verus! {

/// A node of the document, with its children in order.
pub struct Node {
    pub children: Vec<Node>,
    pub node_type: NodeType,
}

/// What a node is: text, or an element.
pub enum NodeType {
    Text(String),
    Element(ElementData),
}

/// Attribute values by attribute name.
pub type AttrMap = StringHashMap<String>;

/// The tag name and the attributes of an element.
pub struct ElementData {
    pub tag_name: String,
    pub attributes: AttrMap,
}

/// A document node as plain text.
pub struct NodeView {
    pub children: Seq<NodeView>,
    pub node_type: NodeTypeView,
}

/// What a node is, as plain text.
pub enum NodeTypeView {
    Text(Seq<char>),
    Element(ElementDataView),
}

/// An element as plain text.
pub struct ElementDataView {
    pub tag_name: Seq<char>,
    pub attributes: Map<Seq<char>, Seq<char>>,
}

/// The attributes with their values as plain text.
pub open spec fn attribute_views(attributes: Map<Seq<char>, String>) -> Map<Seq<char>, Seq<char>> {
    attributes.map_values(|value: String| value@)
}

impl View for ElementData {
    type V = ElementDataView;

    open spec fn view(&self) -> ElementDataView {
        ElementDataView {
            tag_name: self.tag_name@,
            attributes: attribute_views(self.attributes@),
        }
    }
}

impl View for NodeType {
    type V = NodeTypeView;

    open spec fn view(&self) -> NodeTypeView {
        match self {
            NodeType::Text(data) => NodeTypeView::Text(data@),
            NodeType::Element(elem) => NodeTypeView::Element(elem@),
        }
    }
}

/// The node as a value, children and all.
pub open spec fn node_view(node: Node) -> NodeView
    decreases node,
{
    NodeView {
        children: Seq::new(
            node.children@.len(),
            |i: int|
                if 0 <= i < node.children@.len() {
                    node_view(node.children@[i])
                } else {
                    arbitrary()
                },
        ),
        node_type: node.node_type@,
    }
}

impl View for Node {
    type V = NodeView;

    open spec fn view(&self) -> NodeView {
        node_view(*self)
    }
}

/// The views of nodes, one for one.
pub open spec fn node_views(nodes: Seq<Node>) -> Seq<NodeView> {
    nodes.map_values(|node: Node| node@)
}

/// The children of a node's view are the views of its children.
pub proof fn lemma_node_view(node: Node)
    ensures
        node@.node_type == node.node_type@,
        node@.children == node_views(node.children@),
{
    assert(node@.children =~= node_views(node.children@));
}

/// A text leaf.
pub fn text(data: String) -> (r: Node)
    ensures
        r@ == (NodeView { children: Seq::empty(), node_type: NodeTypeView::Text(data@) }),
{
    let node = Node { children: Vec::new(), node_type: NodeType::Text(data) };
    proof {
        lemma_node_view(node);
        assert(node@.children =~= Seq::empty());
    }
    node
}

/// An element with the given tag name, attributes and children, in order.
pub fn elem(name: String, attrs: AttrMap, children: Vec<Node>) -> (r: Node)
    ensures
        r@ == (NodeView {
            children: node_views(children@),
            node_type: NodeTypeView::Element(
                ElementDataView { tag_name: name@, attributes: attribute_views(attrs@) },
            ),
        }),
{
    let node = Node {
        children: children,
        node_type: NodeType::Element(ElementData { tag_name: name, attributes: attrs }),
    };
    proof {
        lemma_node_view(node);
    }
    node
}

impl ElementDataView {
    /// The value of the `id` attribute, if the element has one.
    pub open spec fn id(self) -> Option<Seq<char>> {
        if self.attributes.contains_key("id"@) {
            Some(self.attributes["id"@])
        } else {
            None
        }
    }

    /// Whether `name` is one of the words of the `class` attribute.
    pub open spec fn has_class(self, name: Seq<char>) -> bool {
        self.attributes.contains_key("class"@) && has_word(self.attributes["class"@], name)
    }
}

impl ElementData {
    /// The value of the `id` attribute, if the element has one.
    pub fn id(&self) -> (r: Option<&String>)
        ensures
            match r {
                Some(s) => self@.id() == Some(s@),
                None => self@.id().is_none(),
            },
    {
        self.attributes.get("id")
    }

    /// The classes of the element: the words of its `class` attribute, each
    /// once. Without the attribute there are none.
    pub fn classes(&self) -> (r: Vec<String>)
        ensures
            forall|name: Seq<char>| self@.has_class(name) <==> holds(r@, name),
            forall|a: int, b: int|
                0 <= a < b < r@.len() ==> (#[trigger] r@[a])@ != (#[trigger] r@[b])@,
    {
        match self.attributes.get("class") {
            Some(class_list) => words(class_list.as_str()),
            None => {
                let none: Vec<String> = Vec::new();
                assert forall|name: Seq<char>| !holds(none@, name) by {}
                none
            },
        }
    }
}

} // verus!
