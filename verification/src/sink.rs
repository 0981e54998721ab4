//! The document as an HTML parser builds it: the operations that the parser asks
//! for, from creating nodes to placing them, and the merging of adjacent text.
use vstd::prelude::*;
use crate::node::{NodeId, NodeData, TreeNode, QualName, Attr, Element};
use crate::tree::{Tree, node_ok};
use crate::ops::{TreeNodeOps, moved, detached, children_without, siblings_without, index_without};
use crate::edit::{data_replaced, lemma_data_replaced_wf};
use crate::text::push_str;

verus! {

/// The contents of a text node; nothing for any other node.
pub open spec fn text_contents(d: NodeData) -> Seq<char> {
    match d {
        NodeData::Text { contents } => contents@,
        _ => Seq::empty(),
    }
}

/// `u` is `t` with `text` added at the end of text node `x`.
pub open spec fn text_merged(t: Tree, u: Tree, x: int, text: Seq<char>) -> bool {
    &&& u.wf()
    &&& u.len() == t.len()
    &&& u.data(x) is Text
    &&& text_contents(u.data(x)) == text_contents(t.data(x)) + text
    &&& forall|i: int| 0 <= i < t.len() && i != x ==> #[trigger] u.data(i) == t.data(i)
    &&& forall|m: int| 0 <= m < t.len() ==> #[trigger] u.parent(m) == t.parent(m)
    &&& forall|m: int| 0 <= m < t.len() ==> #[trigger] u.siblings(m) == t.siblings(m)
    &&& forall|q: int| 0 <= q < t.len() ==> #[trigger] u.children(q) == t.children(q)
    &&& forall|m: int, a: int| 0 <= m < t.len() ==> #[trigger] u.is_inclusive_descendant(m, a) == t.is_inclusive_descendant(m, a)
}

/// Appends `text` to node `prev` if it is a text node, and says whether it was.
pub fn append_to_existing_text(prev: &mut TreeNode, text: &str) -> (r: bool)
    ensures
        r == (old(prev).data is Text),
        final(prev).id == old(prev).id,
        final(prev).parent == old(prev).parent,
        final(prev).prev_sibling == old(prev).prev_sibling,
        final(prev).next_sibling == old(prev).next_sibling,
        final(prev).first_child == old(prev).first_child,
        final(prev).last_child == old(prev).last_child,
        r ==> final(prev).data is Text && text_contents(final(prev).data) == text_contents(old(prev).data) + text@,
        !r ==> final(prev).data == old(prev).data,
{
    let merged: Option<String> = match &prev.data {
        NodeData::Text { contents } => {
            let mut s = String::new();
            push_str(&mut s, contents.as_str());
            push_str(&mut s, text);
            Some(s)
        },
        _ => None,
    };
    match merged {
        Some(s) => {
            prev.data = NodeData::Text { contents: s };
            true
        },
        None => false,
    }
}

/// Ancestry depends on the parents alone.
pub proof fn lemma_desc_same_parents(t: Tree, u: Tree, m: int, a: int)
    requires
        t.wf(),
        u.len() == t.len(),
        u.depth@ == t.depth@,
        forall|i: int| 0 <= i < t.len() ==> #[trigger] u.parent(i) == t.parent(i),
        0 <= m < t.len(),
    ensures
        u.is_inclusive_descendant(m, a) == t.is_inclusive_descendant(m, a),
    decreases t.depth@[m],
{
    assert(node_ok(t.nodes@, t.chains@, t.pos@, t.depth@, m));
    assert(u.parent(m) == t.parent(m));
    if m != a {
        if let Some(q) = t.parent(m) {
            lemma_desc_same_parents(t, u, q as int, a);
        }
    }
}

/// Adds `text` at the end of node `x` if it is a text node, and says whether it was.
pub fn merge_text_at(tree: &mut Tree, x: usize, text: &str) -> (r: bool)
    requires
        old(tree).wf(),
        x < old(tree).len(),
    ensures
        r == (old(tree).data(x as int) is Text),
        r ==> text_merged(*old(tree), *final(tree), x as int, text@),
        !r ==> *final(tree) == *old(tree),
{
    let ghost t0 = *tree;
    if !tree.nodes[x].is_text() {
        return false;
    }
    let r = append_to_existing_text(&mut tree.nodes[x], text);
    proof {
        let u = *tree;
        if r {
            assert(u.nodes@[x as int] == (TreeNode { data: u.nodes@[x as int].data, ..t0.nodes@[x as int] }));
            assert(data_replaced(t0, u, x as int, u.nodes@[x as int].data));
            lemma_data_replaced_wf(t0, u, x as int, u.nodes@[x as int].data);
            assert forall|q: int| 0 <= q < t0.len() implies #[trigger] u.children(q) == t0.children(q) by {
                assert(u.nodes@[q].first_child == t0.nodes@[q].first_child);
            }
            assert forall|m: int, a: int| 0 <= m < t0.len() implies #[trigger] u.is_inclusive_descendant(m, a) == t0.is_inclusive_descendant(m, a) by {
                lemma_desc_same_parents(t0, u, m, a);
            }
        }
    }
    r
}

/// The document's mode, as the parser decides it.
#[derive(Clone, Copy, Debug, PartialEq, Eq, Structural)]
pub enum QuirksMode {
    Quirks,
    LimitedQuirks,
    NoQuirks,
}

/// What the parser places: a node that exists already, or text.
pub enum NodeOrText {
    AppendNode(NodeId),
    AppendText(String),
}

/// Placing `child` at the end of `parent` is possible: a node to place exists and is
/// not an ancestor of the place.
pub open spec fn can_append(t: Tree, parent: NodeId, child: NodeOrText) -> bool {
    match child {
        NodeOrText::AppendNode(c) => t.valid(c.value as int)
            && (t.valid(parent.value as int) ==> !t.is_inclusive_descendant(parent.value as int, c.value as int)),
        NodeOrText::AppendText(_) => true,
    }
}

/// `u` is `t` once a new node holding `data` has been added to the arena.
pub open spec fn node_added(t: Tree, u: Tree, data: NodeData) -> bool {
    &&& u.wf()
    &&& u.len() == t.len() + 1
    &&& u.data(t.len() as int) == data
    &&& forall|i: int| 0 <= i < t.len() ==> #[trigger] u.data(i) == t.data(i)
    &&& forall|m: int| 0 <= m < t.len() ==> #[trigger] u.parent(m) == t.parent(m)
}

/// The last child of `p`, if it is a text node.
pub open spec fn last_text_child(t: Tree, p: int) -> Option<usize> {
    if t.valid(p) {
        match t.last(p) {
            Some(l) => if t.data(l as int) is Text { Some(l) } else { None },
            None => None,
        }
    } else {
        None
    }
}

/// The previous sibling of `sb`, if it is a text node.
pub open spec fn prev_text_sibling(t: Tree, sb: int) -> Option<usize> {
    if t.valid(sb) {
        match t.prev(sb) {
            Some(pv) => if t.data(pv as int) is Text { Some(pv) } else { None },
            None => None,
        }
    } else {
        None
    }
}

/// `u` is `t` once `child` has been placed at the end of `parent`: a node is moved
/// there; text goes to the end of the last child when that is a text node, else into
/// a new text node at the end. For a parent out of the tree, the node is detached and
/// the text stays in a detached node.
pub open spec fn appended(t: Tree, u: Tree, parent: NodeId, child: NodeOrText) -> bool {
    let p = parent.value as int;
    match child {
        NodeOrText::AppendNode(c) => if t.valid(p) {
            moved(t, u, c.value as int, Some(parent.value), children_without(t, c.value as int, p),
                children_without(t, c.value as int, p).len() as int)
        } else {
            detached(t, u, c.value as int)
        },
        NodeOrText::AppendText(text) => if let Some(l) = last_text_child(t, p) {
            text_merged(t, u, l as int, text@)
        } else {
            &&& node_added(t, u, NodeData::Text { contents: text })
            &&& t.valid(p) ==> {
                &&& u.parent(t.len() as int) == Some(parent.value)
                &&& u.children(p) == t.children(p).push(t.len() as usize)
                &&& forall|q: int| 0 <= q < t.len() && q != p ==> #[trigger] u.children(q) == t.children(q)
            }
            &&& !t.valid(p) ==> {
                &&& u.parent(t.len() as int).is_none()
                &&& forall|q: int| 0 <= q < t.len() ==> #[trigger] u.children(q) == t.children(q)
            }
        },
    }
}

/// Placing `child` just before `sibling` is possible: a node to place exists, is not
/// `sibling`, and is not an ancestor of the place.
pub open spec fn can_append_before(t: Tree, sibling: NodeId, child: NodeOrText) -> bool {
    match child {
        NodeOrText::AppendNode(c) => t.valid(c.value as int) && c.value != sibling.value
            && (t.valid(sibling.value as int) ==> (t.parent(sibling.value as int) matches Some(q)
                ==> !t.is_inclusive_descendant(q as int, c.value as int))),
        NodeOrText::AppendText(_) => true,
    }
}

/// `u` is `t` once `child` has been placed just before `sibling`: a node is moved
/// there; text goes to the end of the previous sibling when that is a text node, else
/// into a new text node there. For a sibling out of the tree, the node is detached and
/// the text stays in a detached node.
pub open spec fn appended_before(t: Tree, u: Tree, sibling: NodeId, child: NodeOrText) -> bool {
    let sb = sibling.value as int;
    match child {
        NodeOrText::AppendNode(c) => if t.valid(sb) {
            moved(t, u, c.value as int, t.parent(sb), siblings_without(t, c.value as int, sb), index_without(t, c.value as int, sb))
        } else {
            detached(t, u, c.value as int)
        },
        NodeOrText::AppendText(text) => if let Some(pv) = prev_text_sibling(t, sb) {
            text_merged(t, u, pv as int, text@)
        } else {
            &&& node_added(t, u, NodeData::Text { contents: text })
            &&& t.valid(sb) ==> {
                &&& u.parent(t.len() as int) == t.parent(sb)
                &&& u.siblings(sb) == t.siblings(sb).insert(t.index(sb), t.len() as usize)
                &&& forall|q: int| 0 <= q < t.len() ==> #[trigger] u.children(q) == (if t.parent(sb) == Some(q as usize) {
                    t.children(q).insert(t.index(sb), t.len() as usize)
                } else {
                    t.children(q)
                })
            }
            &&& !t.valid(sb) ==> {
                &&& u.parent(t.len() as int).is_none()
                &&& forall|q: int| 0 <= q < t.len() ==> #[trigger] u.children(q) == t.children(q)
            }
        },
    }
}

/// A document under construction: its tree, the parse errors met so far, and its mode.
pub struct Document {
    pub tree: Tree,
    pub errors: Vec<String>,
    pub quirks_mode: QuirksMode,
}

impl Default for Document {
    /// An empty document: a tree holding only a document node.
    fn default() -> (r: Self)
        ensures
            r.tree.wf(),
            r.tree.len() == 1,
            r.tree.data(0) == NodeData::Document,
            r.errors@ == Seq::<String>::empty(),
            r.quirks_mode == QuirksMode::NoQuirks,
    {
        Document { tree: Tree::new(NodeData::Document), errors: Vec::new(), quirks_mode: QuirksMode::NoQuirks }
    }
}

impl Document {
    /// An empty document fragment: a tree holding only a fragment node.
    pub fn fragment_sink() -> (r: Self)
        ensures
            r.tree.wf(),
            r.tree.len() == 1,
            r.tree.data(0) == NodeData::Fragment,
            r.errors@ == Seq::<String>::empty(),
            r.quirks_mode == QuirksMode::NoQuirks,
    {
        Document { tree: Tree::new(NodeData::Fragment), errors: Vec::new(), quirks_mode: QuirksMode::NoQuirks }
    }

    /// Records a parse error.
    pub fn parse_error(&mut self, msg: String)
        ensures
            final(self).errors@ == old(self).errors@.push(msg),
            final(self).tree == old(self).tree,
            final(self).quirks_mode == old(self).quirks_mode,
    {
        self.errors.push(msg);
    }

    /// The document node.
    pub fn get_document(&self) -> (r: NodeId)
        ensures
            r.value == 0,
    {
        self.tree.root_id()
    }

    /// The contents of a template element.
    pub fn get_template_contents(&self, target: &NodeId) -> (r: NodeId)
        requires
            self.tree.valid(target.value as int),
            self.tree.data(target.value as int) matches NodeData::Element(e) && e.template_contents is Some,
        ensures
            self.tree.data(target.value as int) matches NodeData::Element(e) && e.template_contents == Some(r),
    {
        self.tree.nodes[target.value].as_element().unwrap().template_contents.unwrap()
    }

    /// Sets the document's mode.
    pub fn set_quirks_mode(&mut self, mode: QuirksMode)
        ensures
            final(self).quirks_mode == mode,
            final(self).tree == old(self).tree,
            final(self).errors == old(self).errors,
    {
        self.quirks_mode = mode;
    }

    /// Whether two handles are the same node.
    pub fn same_node(&self, x: &NodeId, y: &NodeId) -> (r: bool)
        ensures
            r == (x.value == y.value),
    {
        x.value == y.value
    }

    /// The name of an element.
    pub fn elem_name(&self, target: &NodeId) -> (r: &QualName)
        requires
            self.tree.valid(target.value as int),
            self.tree.data(target.value as int) is Element,
        ensures
            self.tree.data(target.value as int) matches NodeData::Element(e) && *r == e.name,
    {
        &self.tree.nodes[target.value].as_element().unwrap().name
    }
    /// Creates an element, and for a template also the document fragment that holds
    /// its contents, created just before it.
    pub fn create_element(&mut self, name: QualName, attrs: Vec<Attr>, template: bool,
        mathml_annotation_xml_integration_point: bool) -> (r: NodeId)
        requires
            old(self).tree.wf(),
        ensures
            final(self).tree.wf(),
            final(self).errors == old(self).errors,
            final(self).quirks_mode == old(self).quirks_mode,
            r.value + 1 == final(self).tree.len(),
            final(self).tree.len() == old(self).tree.len() + (if template { 2int } else { 1int }),
            final(self).tree.data(r.value as int) == NodeData::Element(Element {
                name,
                attrs,
                template_contents: if template { Some(NodeId { value: old(self).tree.len() as usize }) } else { None },
                mathml_annotation_xml_integration_point,
            }),
            template ==> final(self).tree.data(old(self).tree.len() as int) == NodeData::Document,
            forall|i: int| 0 <= i < final(self).tree.len() ==> #[trigger] final(self).tree.children(i) == (
                if i < old(self).tree.len() { old(self).tree.children(i) } else { Seq::empty() }),
            forall|i: int| 0 <= i < final(self).tree.len() ==> #[trigger] final(self).tree.parent(i) == (
                if i < old(self).tree.len() { old(self).tree.parent(i) } else { None }),
            forall|i: int| 0 <= i < old(self).tree.len() ==> #[trigger] final(self).tree.data(i) == old(self).tree.data(i),
    {
        let ghost t0 = self.tree;
        let template_contents = if template {
            Some(self.tree.create_node(NodeData::Document))
        } else {
            None
        };
        let ghost t1 = self.tree;
        let r = self.tree.create_node(NodeData::Element(Element::new(name, attrs, template_contents,
            mathml_annotation_xml_integration_point)));
        proof {
            let u = self.tree;
            assert forall|i: int| 0 <= i < u.len() implies #[trigger] u.parent(i) == (
                if i < t0.len() { t0.parent(i) } else { None }) by {
                assert(u.nodes@[i] == t1.nodes@.push(TreeNode::new_spec(r, u.nodes@[r.value as int].data))[i]);
                if i < t1.len() {
                    assert(u.nodes@[i] == t1.nodes@[i]);
                    if i < t0.len() {
                        assert(t1.nodes@[i] == t0.nodes@[i]);
                    }
                }
            }
            assert forall|i: int| 0 <= i < old(self).tree.len() implies #[trigger] u.data(i) == old(self).tree.data(i) by {
                assert(u.nodes@[i] == t1.nodes@[i]);
                if template {
                    assert(t1.nodes@[i] == t0.nodes@[i]);
                }
            }
            if template {
                assert(u.nodes@[t0.len() as int] == t1.nodes@[t0.len() as int]);
            }
        }
        r
    }

    /// Creates a comment.
    pub fn create_comment(&mut self, text: String) -> (r: NodeId)
        requires
            old(self).tree.wf(),
        ensures
            r.value == old(self).tree.len(),
            node_added(old(self).tree, final(self).tree, NodeData::Comment { contents: text }),
            final(self).tree.parent(r.value as int).is_none(),
            forall|i: int| 0 <= i < final(self).tree.len() ==> #[trigger] final(self).tree.children(i) == (
                if i < old(self).tree.len() { old(self).tree.children(i) } else { Seq::empty() }),
            final(self).errors == old(self).errors,
            final(self).quirks_mode == old(self).quirks_mode,
    {
        self.tree.create_node(NodeData::Comment { contents: text })
    }

    /// Creates a processing instruction.
    pub fn create_pi(&mut self, target: String, data: String) -> (r: NodeId)
        requires
            old(self).tree.wf(),
        ensures
            r.value == old(self).tree.len(),
            node_added(old(self).tree, final(self).tree, NodeData::ProcessingInstruction { target, contents: data }),
            final(self).tree.parent(r.value as int).is_none(),
            forall|i: int| 0 <= i < final(self).tree.len() ==> #[trigger] final(self).tree.children(i) == (
                if i < old(self).tree.len() { old(self).tree.children(i) } else { Seq::empty() }),
            final(self).errors == old(self).errors,
            final(self).quirks_mode == old(self).quirks_mode,
    {
        self.tree.create_node(NodeData::ProcessingInstruction { target, contents: data })
    }

    /// Places `child` at the end of `parent`, merging text with a text node that ends it.
    pub fn append(&mut self, parent: &NodeId, child: NodeOrText)
        requires
            old(self).tree.wf(),
            can_append(old(self).tree, *parent, child),
        ensures
            final(self).tree.wf(),
            appended(old(self).tree, final(self).tree, *parent, child),
            final(self).errors == old(self).errors,
            final(self).quirks_mode == old(self).quirks_mode,
    {
        let ghost t0 = self.tree;
        let ghost ch = child;
        match child {
            NodeOrText::AppendNode(node_id) => {
                self.tree.append_child_of(parent, &node_id);
                proof {
                    assert(ch == NodeOrText::AppendNode(node_id));
                    if t0.valid(parent.value as int) {
                        assert(moved(t0, self.tree, node_id.value as int, Some(parent.value),
                            children_without(t0, node_id.value as int, parent.value as int),
                            children_without(t0, node_id.value as int, parent.value as int).len() as int));
                    }
                }
            },
            NodeOrText::AppendText(text) => {
                let p = parent.value;
                if p < self.tree.nodes.len() {
                    if let Some(l) = self.tree.nodes[p].last_child {
                        proof {
                            assert(node_ok(t0.nodes@, t0.chains@, t0.pos@, t0.depth@, p as int));
                        }
                        if merge_text_at(&mut self.tree, l.value, text.as_str()) {
                            return;
                        }
                    }
                }
                self.tree.append_child_data_of(parent, NodeData::Text { contents: text });
            },
        }
    }

    /// Places `child` just before `sibling`, merging text with a text node just before it.
    pub fn append_before_sibling(&mut self, sibling: &NodeId, child: NodeOrText)
        requires
            old(self).tree.wf(),
            can_append_before(old(self).tree, *sibling, child),
        ensures
            final(self).tree.wf(),
            appended_before(old(self).tree, final(self).tree, *sibling, child),
            final(self).errors == old(self).errors,
            final(self).quirks_mode == old(self).quirks_mode,
    {
        let ghost t0 = self.tree;
        let ghost ch = child;
        let sb = sibling.value;
        match child {
            NodeOrText::AppendNode(node_id) => {
                self.tree.insert_before_of(sibling, &node_id);
                proof {
                    assert(ch == NodeOrText::AppendNode(node_id));
                }
            },
            NodeOrText::AppendText(text) => {
                if sb < self.tree.nodes.len() {
                    if let Some(pv) = self.tree.nodes[sb].prev_sibling {
                        proof {
                            assert(node_ok(t0.nodes@, t0.chains@, t0.pos@, t0.depth@, sb as int));
                        }
                        if merge_text_at(&mut self.tree, pv.value, text.as_str()) {
                            return;
                        }
                    }
                }
                let ghost tx = text;
                let n0 = self.tree.nodes.len();
                let id = self.tree.create_node(NodeData::Text { contents: text });
                let ghost t1 = self.tree;
                proof {
                    if sb < t0.len() {
                        crate::chains::lemma_chain_members(t0, sb as int);
                        assert(node_ok(t0.nodes@, t0.chains@, t0.pos@, t0.depth@, sb as int));
                        if let Some(q) = t0.parent(sb as int) {
                            crate::merge::lemma_closed_not_desc_pub(t0, q as int, id.value as int);
                        }
                    }
                }
                if sb < n0 {
                    self.tree.insert_before_of(sibling, &id);
                }
                proof {
                    let u = self.tree;
                    let n = id.value as int;
                    assert forall|i: int| 0 <= i < t0.len() implies #[trigger] u.data(i) == t0.data(i) by {
                        assert(u.nodes@[i].data == t1.nodes@[i].data);
                        assert(t1.nodes@[i] == t0.nodes@[i]);
                    }
                    assert(u.nodes@[n].data == t1.nodes@[n].data);
                    assert forall|m: int| 0 <= m < t0.len() implies #[trigger] u.parent(m) == t0.parent(m) by {
                        assert(t1.nodes@[m] == t0.nodes@[m]);
                    }
                    if sb < t0.len() {
                        let sw = siblings_without(t1, n, sb as int);
                        assert(t1.siblings(sb as int) != t1.siblings(n)) by {
                            assert(t1.siblings(n) == seq![id.value]);
                            if t1.siblings(sb as int) == seq![id.value] {
                                crate::chains::lemma_chain_members(t1, sb as int);
                                assert(t1.siblings(sb as int)[t1.index(sb as int)] == sb);
                            }
                        }
                        assert(sw == t0.siblings(sb as int));
                        assert(index_without(t1, n, sb as int) == t0.index(sb as int));
                        assert(moved(t1, u, n, t1.parent(sb as int), sw, t0.index(sb as int)));
                        assert forall|q: int| 0 <= q < t0.len() implies #[trigger] u.children(q) == (if t0.parent(sb as int) == Some(q as usize) {
                            t0.children(q).insert(t0.index(sb as int), id.value)
                        } else {
                            t0.children(q)
                        }) by {
                            if t0.parent(sb as int) == Some(q as usize) {
                                assert(t0.children(q) == t0.siblings(sb as int));
                            } else {
                                assert(children_without(t1, n, q) == t1.children(q));
                            }
                        }
                    }
                    assert(ch == NodeOrText::AppendText(tx));
                }
            },
        }
    }

    /// Places `child` before `element` if that has a parent, else at the end of
    /// `prev_element`.
    pub fn append_based_on_parent_node(&mut self, element: &NodeId, prev_element: &NodeId, child: NodeOrText)
        requires
            old(self).tree.wf(),
            old(self).tree.valid(element.value as int) && old(self).tree.parent(element.value as int) is Some
                ==> can_append_before(old(self).tree, *element, child),
            !(old(self).tree.valid(element.value as int) && old(self).tree.parent(element.value as int) is Some)
                ==> can_append(old(self).tree, *prev_element, child),
        ensures
            final(self).tree.wf(),
            old(self).tree.valid(element.value as int) && old(self).tree.parent(element.value as int) is Some
                ==> appended_before(old(self).tree, final(self).tree, *element, child),
            !(old(self).tree.valid(element.value as int) && old(self).tree.parent(element.value as int) is Some)
                ==> appended(old(self).tree, final(self).tree, *prev_element, child),
            final(self).errors == old(self).errors,
            final(self).quirks_mode == old(self).quirks_mode,
    {
        let has_parent = element.value < self.tree.nodes.len() && self.tree.nodes[element.value].parent.is_some();
        if has_parent {
            self.append_before_sibling(element, child);
        } else {
            self.append(prev_element, child);
        }
    }

    /// Appends a doctype to the document node.
    pub fn append_doctype_to_document(&mut self, name: String, public_id: String, system_id: String)
        requires
            old(self).tree.wf(),
            old(self).tree.len() > 0,
        ensures
            node_added(old(self).tree, final(self).tree, NodeData::Doctype { name, public_id, system_id }),
            final(self).tree.parent(old(self).tree.len() as int) == Some(0usize),
            final(self).tree.children(0) == old(self).tree.children(0).push(old(self).tree.len() as usize),
            forall|q: int| 0 < q < old(self).tree.len() ==> #[trigger] final(self).tree.children(q) == old(self).tree.children(q),
            final(self).errors == old(self).errors,
            final(self).quirks_mode == old(self).quirks_mode,
    {
        let root = self.tree.root_id();
        self.tree.append_child_data_of(&root, NodeData::Doctype { name, public_id, system_id });
    }

    /// Detaches a node from its parent and siblings.
    pub fn remove_from_parent(&mut self, target: &NodeId)
        requires
            old(self).tree.wf(),
        ensures
            final(self).tree.wf(),
            !old(self).tree.valid(target.value as int) ==> final(self).tree == old(self).tree,
            old(self).tree.valid(target.value as int) ==> detached(old(self).tree, final(self).tree, target.value as int),
            final(self).errors == old(self).errors,
            final(self).quirks_mode == old(self).quirks_mode,
    {
        self.tree.remove_from_parent(target);
    }
    /// Adds to element `target` the attributes whose names it lacks; other nodes stay
    /// as they are.
    pub fn add_attrs_if_missing(&mut self, target: &NodeId, attrs: Vec<Attr>)
        requires
            old(self).tree.wf(),
        ensures
            final(self).tree.wf(),
            final(self).errors == old(self).errors,
            final(self).quirks_mode == old(self).quirks_mode,
            !(old(self).tree.valid(target.value as int) && old(self).tree.data(target.value as int) is Element)
                ==> final(self).tree == old(self).tree,
            old(self).tree.valid(target.value as int) ==> (old(self).tree.data(target.value as int) matches NodeData::Element(e0) ==> {
                &&& final(self).tree.data(target.value as int) matches NodeData::Element(e1) && {
                    &&& e1.name == e0.name
                    &&& e1.template_contents == e0.template_contents
                    &&& e1.mathml_annotation_xml_integration_point == e0.mathml_annotation_xml_integration_point
                    &&& e1.attrs@ == e0.attrs@ + attrs@.filter(|a: Attr| !(exists|k: int| 0 <= k < e0.attrs@.len()
                        && crate::element::same_name(#[trigger] e0.attrs@[k].name, a.name)))
                }
                &&& final(self).tree.len() == old(self).tree.len()
                &&& forall|i: int| 0 <= i < old(self).tree.len() && i != target.value ==> #[trigger] final(self).tree.data(i) == old(self).tree.data(i)
                &&& forall|m: int| 0 <= m < old(self).tree.len() ==> #[trigger] final(self).tree.parent(m) == old(self).tree.parent(m)
                &&& forall|q: int| 0 <= q < old(self).tree.len() ==> #[trigger] final(self).tree.children(q) == old(self).tree.children(q)
            }),
    {
        let x = target.value;
        if x >= self.tree.nodes.len() || !self.tree.nodes[x].is_element() {
            return;
        }
        let ghost t0 = self.tree;
        match &mut self.tree.nodes[x].data {
            NodeData::Element(e) => e.add_attrs_if_missing(attrs),
            _ => {},
        }
        proof {
            let u = self.tree;
            assert(u.nodes@[x as int] == (TreeNode { data: u.nodes@[x as int].data, ..t0.nodes@[x as int] }));
            assert(data_replaced(t0, u, x as int, u.nodes@[x as int].data));
            lemma_data_replaced_wf(t0, u, x as int, u.nodes@[x as int].data);
            assert forall|q: int| 0 <= q < t0.len() implies #[trigger] u.children(q) == t0.children(q) by {
                assert(u.nodes@[q].first_child == t0.nodes@[q].first_child);
            }
        }
    }

    /// Removes all the children of `node` and appends them, in order, to `new_parent`,
    /// after its own children. Giving them to `node` itself changes nothing.
    pub fn reparent_children(&mut self, node: &NodeId, new_parent: &NodeId)
        requires
            old(self).tree.wf(),
            old(self).tree.valid(new_parent.value as int),
            new_parent.value != node.value && old(self).tree.valid(node.value as int)
                ==> !old(self).tree.is_inclusive_descendant(new_parent.value as int, node.value as int),
        ensures
            final(self).tree.wf(),
            final(self).tree.same_data(&old(self).tree),
            final(self).errors == old(self).errors,
            final(self).quirks_mode == old(self).quirks_mode,
            !old(self).tree.valid(node.value as int) || node.value == new_parent.value ==> final(self).tree == old(self).tree,
            old(self).tree.valid(node.value as int) && node.value != new_parent.value ==> {
                &&& forall|m: int| 0 <= m < old(self).tree.len() ==> #[trigger] final(self).tree.parent(m) == (
                    if old(self).tree.parent(m) == Some(node.value) { Some(new_parent.value) } else { old(self).tree.parent(m) })
                &&& forall|r: int| 0 <= r < old(self).tree.len() ==> #[trigger] final(self).tree.children(r) == (if r == new_parent.value {
                    old(self).tree.children(new_parent.value as int) + old(self).tree.children(node.value as int)
                } else if r == node.value {
                    Seq::<usize>::empty()
                } else {
                    old(self).tree.children(r)
                })
            },
    {
        if node.value == new_parent.value {
            return;
        }
        let n0 = self.tree.nodes.len();
        let ghost t0 = self.tree;
        TreeNodeOps::reparent_children_of(&mut self.tree, node, Some(*new_parent));
        proof {
            if t0.valid(node.value as int) {
                assert forall|r: int| 0 <= r < t0.len() implies #[trigger] self.tree.children(r) == (if r == new_parent.value {
                    t0.children(new_parent.value as int) + t0.children(node.value as int)
                } else if r == node.value {
                    Seq::<usize>::empty()
                } else {
                    t0.children(r)
                }) by {
                    assert(crate::node::opt_idx(Some(*new_parent)) == Some(new_parent.value));
                    assert(r <= n0);
                    if r == new_parent.value {
                        assert(r as usize == new_parent.value);
                    }
                }
            }
        }
    }
}

} // verus!
