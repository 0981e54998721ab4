//! Node identifiers, node payloads and the arena slot that holds them.
use vstd::prelude::*;

verus! {

/// Represents a Node ID: the index of a node in its tree's arena.
#[derive(Copy, Clone, Debug, PartialEq, Eq, Structural, Hash, PartialOrd, Ord)]
pub struct NodeId {
    pub value: usize,
}

impl NodeId {
    /// Creates a node id from an arena index.
    pub fn new(value: usize) -> (r: Self)
        ensures
            r.value == value,
    {
        NodeId { value }
    }
}

/// The model of the id of an optional node: its index.
pub open spec fn opt_idx(o: Option<NodeId>) -> Option<usize> {
    match o {
        Some(id) => Some(id.value),
        None => None,
    }
}

/// A qualified name: prefix, namespace url and local name.
#[derive(Clone, Debug)]
pub struct QualName {
    pub prefix: Option<String>,
    pub ns: String,
    pub local: String,
}

impl QualName {
    /// A name without prefix in the empty namespace.
    pub fn local_only(local: &str) -> (r: Self)
        ensures
            r.prefix.is_none(),
            r.ns@ == Seq::<char>::empty(),
            r.local@ == local@,
    {
        QualName { prefix: None, ns: String::new(), local: local.to_owned() }
    }
}

/// A tag attribute, e.g. `class="test"` in `<div class="test" ...>`.
#[derive(Clone, Debug)]
pub struct Attr {
    /// The name of the attribute (e.g. the `class` in `<div class="test">`)
    pub name: QualName,
    /// The value of the attribute (e.g. the `"test"` in `<div class="test">`)
    pub value: String,
}

/// An element with attributes.
#[derive(Clone, Debug)]
pub struct Element {
    pub name: QualName,
    pub attrs: Vec<Attr>,
    /// For HTML \<template\> elements, the template contents.
    pub template_contents: Option<NodeId>,
    /// Whether the node is a HTML integration point.
    pub mathml_annotation_xml_integration_point: bool,
}

/// The different kinds of nodes in the DOM.
#[derive(Clone, Debug)]
pub enum NodeData {
    /// The `Tree` itself - the root node of a HTML tree.
    Document,
    /// A root of the html fragment
    Fragment,
    /// A `DOCTYPE` with name, public id, and system id.
    Doctype { name: String, public_id: String, system_id: String },
    /// A text node.
    Text { contents: String },
    /// A comment.
    Comment { contents: String },
    /// An element with attributes.
    Element(Element),
    /// A Processing instruction.
    ProcessingInstruction { target: String, contents: String },
}

/// The inner node is a [`crate::tree::Tree`] node: its payload and its links.
#[derive(Clone, Debug)]
pub struct TreeNode {
    pub id: NodeId,
    pub parent: Option<NodeId>,
    pub prev_sibling: Option<NodeId>,
    pub next_sibling: Option<NodeId>,
    pub first_child: Option<NodeId>,
    pub last_child: Option<NodeId>,
    pub data: NodeData,
}

impl TreeNode {
    /// Creates a new detached node.
    pub fn new(id: NodeId, data: NodeData) -> (r: Self)
        ensures
            r.id == id,
            r.parent.is_none(),
            r.prev_sibling.is_none(),
            r.next_sibling.is_none(),
            r.first_child.is_none(),
            r.last_child.is_none(),
            r.data == data,
    {
        TreeNode {
            id,
            parent: None,
            prev_sibling: None,
            next_sibling: None,
            first_child: None,
            last_child: None,
            data,
        }
    }

    /// Checks if the node is a document node.
    pub fn is_document(&self) -> (r: bool)
        ensures
            r == (self.data is Document),
    {
        matches!(self.data, NodeData::Document)
    }

    /// Checks if the node is an element node.
    pub fn is_element(&self) -> (r: bool)
        ensures
            r == (self.data is Element),
    {
        matches!(self.data, NodeData::Element(_))
    }

    /// Checks if the node is a text node.
    pub fn is_text(&self) -> (r: bool)
        ensures
            r == (self.data is Text),
    {
        matches!(self.data, NodeData::Text { .. })
    }

    /// Checks if the node is a comment node.
    pub fn is_comment(&self) -> (r: bool)
        ensures
            r == (self.data is Comment),
    {
        matches!(self.data, NodeData::Comment { .. })
    }

    /// Checks if the node is a fragment node.
    pub fn is_fragment(&self) -> (r: bool)
        ensures
            r == (self.data is Fragment),
    {
        matches!(self.data, NodeData::Fragment)
    }

    /// Checks if the node is a doctype node.
    pub fn is_doctype(&self) -> (r: bool)
        ensures
            r == (self.data is Doctype),
    {
        matches!(self.data, NodeData::Doctype { .. })
    }

    /// Checks if node may have children nodes.
    pub fn may_have_children(&self) -> (r: bool)
        ensures
            r == (self.data is Document || self.data is Fragment || self.data is Element),
    {
        matches!(self.data, NodeData::Document | NodeData::Fragment | NodeData::Element(_))
    }

    /// Returns a reference to the node as an element, or `None` if it is not an element.
    pub fn as_element(&self) -> (r: Option<&Element>)
        ensures
            r == (match self.data {
                NodeData::Element(e) => Some(&e),
                _ => None,
            }),
    {
        match self.data {
            NodeData::Element(ref e) => Some(e),
            _ => None,
        }
    }

    /// Shifts every id that the node holds by `offset`.
    pub fn adjust(&mut self, offset: usize)
        requires
            old(self).id.value + offset <= usize::MAX,
            old(self).parent matches Some(p) ==> p.value + offset <= usize::MAX,
            old(self).prev_sibling matches Some(p) ==> p.value + offset <= usize::MAX,
            old(self).next_sibling matches Some(p) ==> p.value + offset <= usize::MAX,
            old(self).first_child matches Some(p) ==> p.value + offset <= usize::MAX,
            old(self).last_child matches Some(p) ==> p.value + offset <= usize::MAX,
        ensures
            final(self).id.value == old(self).id.value + offset,
            final(self).parent == shift_id(old(self).parent, offset),
            final(self).prev_sibling == shift_id(old(self).prev_sibling, offset),
            final(self).next_sibling == shift_id(old(self).next_sibling, offset),
            final(self).first_child == shift_id(old(self).first_child, offset),
            final(self).last_child == shift_id(old(self).last_child, offset),
            final(self).data == old(self).data,
    {
        self.id = NodeId::new(self.id.value + offset);
        self.parent = fix_id(self.parent, offset);
        self.prev_sibling = fix_id(self.prev_sibling, offset);
        self.next_sibling = fix_id(self.next_sibling, offset);
        self.first_child = fix_id(self.first_child, offset);
        self.last_child = fix_id(self.last_child, offset);
    }
}

/// An optional id shifted by `offset`.
pub open spec fn shift_id(id: Option<NodeId>, offset: usize) -> Option<NodeId> {
    match id {
        Some(old) => Some(NodeId { value: (old.value + offset) as usize }),
        None => None,
    }
}

/// Shifts an optional id by `offset`.
pub fn fix_id(id: Option<NodeId>, offset: usize) -> (r: Option<NodeId>)
    requires
        id matches Some(i) ==> i.value + offset <= usize::MAX,
    ensures
        r == shift_id(id, offset),
{
    match id {
        Some(old) => Some(NodeId::new(old.value + offset)),
        None => None,
    }
}

} // verus!
