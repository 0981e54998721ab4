//! The tree's own methods: lookups by id, ancestors, children, and the edits that
//! [`TreeNodeOps`] carries out.
use vstd::prelude::*;
use crate::node::{NodeId, NodeData, TreeNode, QualName, Element, opt_idx};
use crate::tree::{Tree, node_ok, par, is_desc};
use crate::ops::{TreeNodeOps, moved, detached, children_without, siblings_without, index_without};
use crate::noderef::{NodeRef, ref_ids};
use crate::query::{ids_of, ancestors_of};
use crate::subtree::child_ids;

verus! {

/// The ancestors that a walk up from a node yields: all of them, or the nearest
/// `d` when the limit is `Some(d)` with `d > 0`.
pub open spec fn limited(a: Seq<usize>, max_depth: Option<usize>) -> Seq<usize> {
    match max_depth {
        Some(d) => if d > 0 && d < a.len() { a.take(d as int) } else { a },
        None => a,
    }
}

impl Tree {
    /// Gets a node by id; `None` for an id out of the tree.
    pub fn get(&self, id: &NodeId) -> (r: Option<NodeRef<'_>>)
        ensures
            match r {
                Some(n) => self.valid(id.value as int) && n.id == *id && *n.tree == *self,
                None => !self.valid(id.value as int),
            },
    {
        if id.value < self.nodes.len() {
            Some(NodeRef::new(*id, self))
        } else {
            None
        }
    }

    /// A reference to node `id`, whether it is in the tree or not.
    pub fn get_unchecked(&self, id: &NodeId) -> (r: NodeRef<'_>)
        ensures
            r.id == *id,
            *r.tree == *self,
    {
        NodeRef::new(*id, self)
    }

    /// The root node.
    pub fn root(&self) -> (r: NodeRef<'_>)
        ensures
            r.id.value == 0,
            *r.tree == *self,
    {
        NodeRef::new(NodeId::new(0), self)
    }

    /// The name of an element by id; `None` for other nodes and ids out of the tree.
    pub fn get_name(&self, id: &NodeId) -> (r: Option<&QualName>)
        ensures
            match r {
                Some(n) => self.valid(id.value as int) && (self.data(id.value as int) matches NodeData::Element(e) && e.name == *n),
                None => !(self.valid(id.value as int) && self.data(id.value as int) is Element),
            },
    {
        if id.value < self.nodes.len() {
            match &self.nodes[id.value].data {
                NodeData::Element(e) => Some(&e.name),
                _ => None,
            }
        } else {
            None
        }
    }

    /// Creates a detached element with the given name.
    pub fn new_element(&mut self, name: &str) -> (r: NodeId)
        requires
            old(self).wf(),
        ensures
            final(self).wf(),
            r.value == old(self).len(),
            final(self).len() == old(self).len() + 1,
            final(self).nodes@.drop_last() == old(self).nodes@,
            final(self).parent(r.value as int).is_none(),
            final(self).children(r.value as int) == Seq::<usize>::empty(),
            (final(self).data(r.value as int) matches NodeData::Element(e) && e.name.local@ == name@
                && e.name.prefix.is_none() && e.name.ns@.len() == 0 && e.attrs@.len() == 0),
    {
        let el = Element::new(QualName::local_only(name), Vec::new(), None, false);
        let id = self.create_node(NodeData::Element(el));
        proof {
            assert(self.nodes@.drop_last() =~= old(self).nodes@);
        }
        id
    }

    /// Creates a detached text node with the given contents.
    pub fn new_text(&mut self, text: &str) -> (r: NodeId)
        requires
            old(self).wf(),
        ensures
            final(self).wf(),
            r.value == old(self).len(),
            final(self).len() == old(self).len() + 1,
            final(self).nodes@.drop_last() == old(self).nodes@,
            final(self).parent(r.value as int).is_none(),
            (final(self).data(r.value as int) matches NodeData::Text { contents } && contents@ == text@),
    {
        let mut s = String::new();
        crate::text::push_str(&mut s, text);
        let id = self.create_node(NodeData::Text { contents: s });
        proof {
            assert(self.nodes@.drop_last() =~= old(self).nodes@);
        }
        id
    }

    /// The ids of the ancestors of a node, parent first. With `max_depth` `Some(d)`,
    /// `d > 0`, only the nearest `d`; `None` and `Some(0)` set no limit.
    pub fn ancestor_ids_of(&self, id: &NodeId, max_depth: Option<usize>) -> (r: Vec<NodeId>)
        requires
            self.wf(),
        ensures
            ids_of(r@) == (if self.valid(id.value as int) { limited(self.ancestors(id.value as int), max_depth) } else { Seq::empty() }),
    {
        let mut out: Vec<NodeId> = Vec::new();
        if id.value >= self.nodes.len() {
            return out;
        }
        let ghost a = self.ancestors(id.value as int);
        let ghost n = self.nodes@;
        let ghost d = self.depth@;
        proof {
            assert(node_ok(n, self.chains@, self.pos@, d, id.value as int));
        }
        let limit: usize = match max_depth {
            Some(m) => if m > 0 { m } else { 0 },
            None => 0,
        };
        let mut cur: Option<usize> = match self.nodes[id.value].parent {
            Some(p) => Some(p.value),
            None => None,
        };
        let mut k: usize = 0;
        loop
            invariant
                self.wf(),
                n == self.nodes@,
                d == self.depth@,
                a == self.ancestors(id.value as int),
                id.value < n.len(),
                k == out@.len(),
                limit == (match max_depth { Some(m) => if m > 0 { m } else { 0usize }, None => 0usize }),
                limit > 0 ==> k <= limit,
                a == ids_of(out@) + (match cur { Some(c) => seq![c] + ancestors_of(n, d, c as int), None => Seq::empty() }),
                cur matches Some(c) ==> c < n.len(),
            ensures
                ids_of(out@) == limited(a, max_depth),
            decreases (match cur { Some(c) => d[c as int] + 1, None => 0 }),
        {
            if limit > 0 && k >= limit {
                proof {
                    assert(a.take(limit as int) =~= ids_of(out@));
                }
                break;
            }
            let c = match cur {
                Some(c) => c,
                None => {
                    proof {
                        assert(ids_of(out@) =~= a);
                    }
                    break;
                },
            };
            proof {
                assert(node_ok(n, self.chains@, self.pos@, d, c as int));
            }
            let ghost before = ids_of(out@);
            out.push(NodeId::new(c));
            k = out.len();
            cur = match self.nodes[c].parent {
                Some(p) => Some(p.value),
                None => None,
            };
            proof {
                assert(ids_of(out@) =~= before.push(c));
                match cur {
                    Some(q) => {
                        assert(ancestors_of(n, d, c as int) == seq![q].add(ancestors_of(n, d, q as int)));
                        assert(a =~= ids_of(out@) + (seq![q] + ancestors_of(n, d, q as int)));
                    },
                    None => {
                        assert(a =~= ids_of(out@));
                    },
                }
            }
        }
        out
    }

    /// The ancestors of a node, parent first, limited as [`Tree::ancestor_ids_of`] says.
    pub fn ancestors_of(&self, id: &NodeId, max_depth: Option<usize>) -> (r: Vec<NodeRef<'_>>)
        requires
            self.wf(),
        ensures
            ref_ids(r@) == (if self.valid(id.value as int) { limited(self.ancestors(id.value as int), max_depth) } else { Seq::empty() }),
            forall|j: int| 0 <= j < r@.len() ==> *(#[trigger] r@[j]).tree == *self,
    {
        let ids = self.ancestor_ids_of(id, max_depth);
        refs_of(self, &ids)
    }

    /// The ids of the children of a node, in order.
    pub fn child_ids_of(&self, id: &NodeId) -> (r: Vec<NodeId>)
        requires
            self.wf(),
        ensures
            ids_of(r@) == (if self.valid(id.value as int) { self.children(id.value as int) } else { Seq::empty() }),
    {
        TreeNodeOps::child_ids_of(self, id)
    }

    /// The children of a node, in order.
    pub fn children_of(&self, id: &NodeId) -> (r: Vec<NodeRef<'_>>)
        requires
            self.wf(),
        ensures
            ref_ids(r@) == (if self.valid(id.value as int) { self.children(id.value as int) } else { Seq::empty() }),
            forall|j: int| 0 <= j < r@.len() ==> *(#[trigger] r@[j]).tree == *self,
    {
        let ids = TreeNodeOps::child_ids_of(self, id);
        refs_of(self, &ids)
    }

    /// Whether node `m` is node `a` or lies in the subtree below it.
    pub fn is_inclusive_descendant_of(&self, m: &NodeId, a: &NodeId) -> (r: bool)
        requires
            self.wf(),
        ensures
            r == (self.valid(m.value as int) && self.valid(a.value as int)
                && self.is_inclusive_descendant(m.value as int, a.value as int)),
    {
        if m.value >= self.nodes.len() || a.value >= self.nodes.len() {
            return false;
        }
        let mut cur: usize = m.value;
        loop
            invariant
                self.wf(),
                cur < self.nodes@.len(),
                a.value < self.nodes@.len(),
                m.value < self.nodes@.len(),
                self.is_inclusive_descendant(m.value as int, a.value as int)
                    == self.is_inclusive_descendant(cur as int, a.value as int),
            decreases self.depth@[cur as int],
        {
            if cur == a.value {
                proof {
                    assert(is_desc(self.nodes@, self.depth@, cur as int, a.value as int));
                }
                return true;
            }
            proof {
                assert(node_ok(self.nodes@, self.chains@, self.pos@, self.depth@, cur as int));
            }
            match self.nodes[cur].parent {
                Some(p) => {
                    cur = p.value;
                },
                None => {
                    return false;
                },
            }
        }
    }

    /// The parent of a node.
    pub fn parent_of(&self, id: &NodeId) -> (r: Option<NodeRef<'_>>)
        ensures
            opt_ref(r) == (if self.valid(id.value as int) { self.parent(id.value as int) } else { None }),
            r matches Some(n) ==> *n.tree == *self,
    {
        if id.value >= self.nodes.len() {
            return None;
        }
        match self.nodes[id.value].parent {
            Some(p) => Some(NodeRef::new(p, self)),
            None => None,
        }
    }

    /// The first child of a node.
    pub fn first_child_of(&self, id: &NodeId) -> (r: Option<NodeRef<'_>>)
        ensures
            opt_ref(r) == (if self.valid(id.value as int) { self.first(id.value as int) } else { None }),
            r matches Some(n) ==> *n.tree == *self,
    {
        if id.value >= self.nodes.len() {
            return None;
        }
        match self.nodes[id.value].first_child {
            Some(p) => Some(NodeRef::new(p, self)),
            None => None,
        }
    }

    /// The last child of a node.
    pub fn last_child_of(&self, id: &NodeId) -> (r: Option<NodeRef<'_>>)
        ensures
            opt_ref(r) == (if self.valid(id.value as int) { self.last(id.value as int) } else { None }),
            r matches Some(n) ==> *n.tree == *self,
    {
        if id.value >= self.nodes.len() {
            return None;
        }
        match self.nodes[id.value].last_child {
            Some(p) => Some(NodeRef::new(p, self)),
            None => None,
        }
    }

    /// The previous sibling of a node.
    pub fn prev_sibling_of(&self, id: &NodeId) -> (r: Option<NodeRef<'_>>)
        ensures
            opt_ref(r) == (if self.valid(id.value as int) { self.prev(id.value as int) } else { None }),
            r matches Some(n) ==> *n.tree == *self,
    {
        if id.value >= self.nodes.len() {
            return None;
        }
        match self.nodes[id.value].prev_sibling {
            Some(p) => Some(NodeRef::new(p, self)),
            None => None,
        }
    }

    /// The next sibling of a node.
    pub fn next_sibling_of(&self, id: &NodeId) -> (r: Option<NodeRef<'_>>)
        ensures
            opt_ref(r) == (if self.valid(id.value as int) { self.next(id.value as int) } else { None }),
            r matches Some(n) ==> *n.tree == *self,
    {
        if id.value >= self.nodes.len() {
            return None;
        }
        match self.nodes[id.value].next_sibling {
            Some(p) => Some(NodeRef::new(p, self)),
            None => None,
        }
    }

    /// The id that the next node created in the tree gets.
    pub fn get_new_id(&self) -> (r: NodeId)
        ensures
            r.value == self.len(),
    {
        NodeId::new(self.nodes.len())
    }
}

/// The id that an optional node reference refers to.
pub open spec fn opt_ref(r: Option<NodeRef>) -> Option<usize> {
    match r {
        Some(n) => Some(n.id.value),
        None => None,
    }
}

pub(crate) fn refs_of<'a>(tree: &'a Tree, ids: &Vec<NodeId>) -> (r: Vec<NodeRef<'a>>)
    ensures
        ref_ids(r@) == ids_of(ids@),
        forall|j: int| 0 <= j < r@.len() ==> *(#[trigger] r@[j]).tree == *tree,
{
    let mut out: Vec<NodeRef<'a>> = Vec::new();
    let mut i: usize = 0;
    while i < ids.len()
        invariant
            i <= ids.len(),
            ref_ids(out@) == ids_of(ids@).take(i as int),
            forall|j: int| 0 <= j < out@.len() ==> *(#[trigger] out@[j]).tree == *tree,
        decreases ids.len() - i,
    {
        let ghost before = out@;
        out.push(NodeRef::new(ids[i], tree));
        i = i + 1;
        proof {
            assert(ref_ids(out@) =~= ref_ids(before).push(ids@[i - 1].value));
            assert(ids_of(ids@).take(i as int) =~= ids_of(ids@).take(i - 1).push(ids@[i - 1].value));
        }
    }
    proof {
        assert(ids_of(ids@).take(ids.len() as int) =~= ids_of(ids@));
    }
    out
}

// ---------------------------------------------------------------------------
// Edits
// ---------------------------------------------------------------------------

impl Tree {
    /// Creates a node from data and appends it to node `id`, after its children. For
    /// an id out of the tree the new node stays detached.
    pub fn append_child_data_of(&mut self, id: &NodeId, data: NodeData)
        requires
            old(self).wf(),
        ensures
            final(self).wf(),
            final(self).len() == old(self).len() + 1,
            final(self).data(old(self).len() as int) == data,
            forall|i: int| 0 <= i < old(self).len() ==> #[trigger] final(self).data(i) == old(self).data(i),
            forall|m: int| 0 <= m < old(self).len() ==> #[trigger] final(self).parent(m) == old(self).parent(m),
            old(self).valid(id.value as int) ==> {
                &&& final(self).parent(old(self).len() as int) == Some(id.value)
                &&& final(self).children(id.value as int) == old(self).children(id.value as int).push(old(self).len() as usize)
                &&& forall|q: int| 0 <= q < old(self).len() && q != id.value ==> #[trigger] final(self).children(q) == old(self).children(q)
            },
            !old(self).valid(id.value as int) ==> {
                &&& final(self).parent(old(self).len() as int).is_none()
                &&& forall|q: int| 0 <= q < old(self).len() ==> #[trigger] final(self).children(q) == old(self).children(q)
            },
    {
        let ghost t0 = *self;
        let new_id = self.create_node(data);
        let ghost t1 = *self;
        if id.value < self.nodes.len() && id.value != new_id.value {
            proof {
                assert(t1.is_inclusive_descendant(id.value as int, new_id.value as int) == t0.is_inclusive_descendant(id.value as int, new_id.value as int));
                crate::merge::lemma_closed_not_desc_pub(t0, id.value as int, new_id.value as int);
                assert(node_ok(t1.nodes@, t1.chains@, t1.pos@, t1.depth@, new_id.value as int));
            }
            TreeNodeOps::append_child_of(self, id, &new_id);
            proof {
                let u = *self;
                let x = new_id.value as int;
                assert(t1.parent(x).is_none());
                assert forall|q: int| 0 <= q < t0.len() && q != id.value implies #[trigger] u.children(q) == t0.children(q) by {
                    assert(Some(id.value) != Some(q as usize));
                    assert(u.children(q) == children_without(t1, x, q));
                    assert(t1.children(q) == t0.children(q));
                }
                assert(u.children(id.value as int) == children_without(t1, x, id.value as int).push(new_id.value)) by {
                    let sw = children_without(t1, x, id.value as int);
                    assert(sw.insert(sw.len() as int, new_id.value) =~= sw.push(new_id.value));
                }
                assert forall|m: int| 0 <= m < t0.len() implies #[trigger] u.parent(m) == t0.parent(m) by {
                    assert(u.parent(m) == t1.parent(m));
                }
                assert forall|i: int| 0 <= i < t0.len() implies #[trigger] u.data(i) == t0.data(i) by {
                    assert(u.nodes@[i].data == t1.nodes@[i].data);
                }
                assert(u.nodes@[x].data == t1.nodes@[x].data);
            }
        }
    }

    /// Appends node `new_child_id` to node `id`, after its children, taking it from
    /// wherever it was.
    pub fn append_child_of(&mut self, id: &NodeId, new_child_id: &NodeId)
        requires
            old(self).wf(),
            old(self).valid(new_child_id.value as int),
            old(self).valid(id.value as int) ==> !old(self).is_inclusive_descendant(id.value as int, new_child_id.value as int),
        ensures
            final(self).wf(),
            old(self).valid(id.value as int) ==> moved(
                *old(self),
                *final(self),
                new_child_id.value as int,
                Some(id.value),
                children_without(*old(self), new_child_id.value as int, id.value as int),
                children_without(*old(self), new_child_id.value as int, id.value as int).len() as int,
            ),
            !old(self).valid(id.value as int) ==> detached(*old(self), *final(self), new_child_id.value as int),
    {
        TreeNodeOps::append_child_of(self, id, new_child_id)
    }

    /// Prepends node `new_child_id` to node `id`, before its children, taking it from
    /// wherever it was.
    pub fn prepend_child_of(&mut self, id: &NodeId, new_child_id: &NodeId)
        requires
            old(self).wf(),
            old(self).valid(new_child_id.value as int),
            old(self).valid(id.value as int) ==> !old(self).is_inclusive_descendant(id.value as int, new_child_id.value as int),
        ensures
            final(self).wf(),
            old(self).valid(id.value as int) ==> moved(
                *old(self),
                *final(self),
                new_child_id.value as int,
                Some(id.value),
                children_without(*old(self), new_child_id.value as int, id.value as int),
                0,
            ),
            !old(self).valid(id.value as int) ==> detached(*old(self), *final(self), new_child_id.value as int),
    {
        TreeNodeOps::prepend_child_of(self, id, new_child_id)
    }

    /// Removes a node from its parent and siblings. The node remains in the tree.
    pub fn remove_from_parent(&mut self, id: &NodeId)
        requires
            old(self).wf(),
        ensures
            final(self).wf(),
            !old(self).valid(id.value as int) ==> *final(self) == *old(self),
            old(self).valid(id.value as int) ==> detached(*old(self), *final(self), id.value as int),
    {
        TreeNodeOps::remove_from_parent(self, id)
    }

    /// Inserts node `new_sibling_id` just before node `id`, taking it from wherever it was.
    pub fn insert_before_of(&mut self, id: &NodeId, new_sibling_id: &NodeId)
        requires
            old(self).wf(),
            old(self).valid(new_sibling_id.value as int),
            new_sibling_id.value != id.value,
            old(self).valid(id.value as int) ==> (old(self).parent(id.value as int) matches Some(q)
                ==> !old(self).is_inclusive_descendant(q as int, new_sibling_id.value as int)),
        ensures
            final(self).wf(),
            old(self).valid(id.value as int) ==> moved(
                *old(self),
                *final(self),
                new_sibling_id.value as int,
                old(self).parent(id.value as int),
                siblings_without(*old(self), new_sibling_id.value as int, id.value as int),
                index_without(*old(self), new_sibling_id.value as int, id.value as int),
            ),
            !old(self).valid(id.value as int) ==> detached(*old(self), *final(self), new_sibling_id.value as int),
    {
        TreeNodeOps::insert_before_of(self, id, new_sibling_id)
    }

    /// Inserts node `new_sibling_id` just before node `id` (the older name of
    /// [`Tree::insert_before_of`]).
    pub fn append_prev_sibling_of(&mut self, id: &NodeId, new_sibling_id: &NodeId)
        requires
            old(self).wf(),
            old(self).valid(new_sibling_id.value as int),
            new_sibling_id.value != id.value,
            old(self).valid(id.value as int) ==> (old(self).parent(id.value as int) matches Some(q)
                ==> !old(self).is_inclusive_descendant(q as int, new_sibling_id.value as int)),
        ensures
            final(self).wf(),
            old(self).valid(id.value as int) ==> moved(
                *old(self),
                *final(self),
                new_sibling_id.value as int,
                old(self).parent(id.value as int),
                siblings_without(*old(self), new_sibling_id.value as int, id.value as int),
                index_without(*old(self), new_sibling_id.value as int, id.value as int),
            ),
            !old(self).valid(id.value as int) ==> detached(*old(self), *final(self), new_sibling_id.value as int),
    {
        TreeNodeOps::insert_before_of(self, id, new_sibling_id)
    }

    /// Inserts node `new_sibling_id` just after node `id`, taking it from wherever it was.
    pub fn insert_after_of(&mut self, id: &NodeId, new_sibling_id: &NodeId)
        requires
            old(self).wf(),
            old(self).valid(new_sibling_id.value as int),
            new_sibling_id.value != id.value,
            old(self).valid(id.value as int) ==> (old(self).parent(id.value as int) matches Some(q)
                ==> !old(self).is_inclusive_descendant(q as int, new_sibling_id.value as int)),
        ensures
            final(self).wf(),
            old(self).valid(id.value as int) ==> moved(
                *old(self),
                *final(self),
                new_sibling_id.value as int,
                old(self).parent(id.value as int),
                siblings_without(*old(self), new_sibling_id.value as int, id.value as int),
                index_without(*old(self), new_sibling_id.value as int, id.value as int) + 1,
            ),
            !old(self).valid(id.value as int) ==> detached(*old(self), *final(self), new_sibling_id.value as int),
    {
        TreeNodeOps::insert_after_of(self, id, new_sibling_id)
    }

    /// Gives the children of node `id`, in order, to the end of the children of
    /// `new_parent_id`, or leaves them together without a parent. Giving them to `id`
    /// itself changes nothing.
    pub fn reparent_children_of(&mut self, id: &NodeId, new_parent_id: Option<NodeId>)
        requires
            old(self).wf(),
            new_parent_id matches Some(q) ==> {
                &&& old(self).valid(q.value as int)
                &&& (q.value != id.value && old(self).valid(id.value as int)) ==> !old(self).is_inclusive_descendant(q.value as int, id.value as int)
            },
        ensures
            final(self).wf(),
            final(self).same_data(old(self)),
            !old(self).valid(id.value as int) ==> *final(self) == *old(self),
            old(self).valid(id.value as int) ==> {
                &&& forall|m: int| 0 <= m < old(self).len() ==> #[trigger] final(self).parent(m) == (if old(self).parent(m) == Some(id.value) {
                    opt_idx(new_parent_id)
                } else {
                    old(self).parent(m)
                })
                &&& forall|r: int| 0 <= r < old(self).len() ==> #[trigger] final(self).children(r) == (if r == id.value {
                    if opt_idx(new_parent_id) == Some(id.value) { old(self).children(r) } else { Seq::<usize>::empty() }
                } else if opt_idx(new_parent_id) == Some(r as usize) {
                    old(self).children(r) + old(self).children(id.value as int)
                } else {
                    old(self).children(r)
                })
            },
    {
        TreeNodeOps::reparent_children_of(self, id, new_parent_id)
    }

    /// Detaches the children of node `id`; they stay together without a parent.
    pub fn remove_children_of(&mut self, id: &NodeId)
        requires
            old(self).wf(),
        ensures
            final(self).wf(),
            final(self).same_data(old(self)),
            !old(self).valid(id.value as int) ==> *final(self) == *old(self),
            old(self).valid(id.value as int) ==> {
                &&& forall|m: int| 0 <= m < old(self).len() ==> #[trigger] final(self).parent(m) == (if old(self).parent(m) == Some(id.value) {
                    None
                } else {
                    old(self).parent(m)
                })
                &&& forall|r: int| 0 <= r < old(self).len() ==> #[trigger] final(self).children(r) == (if r == id.value {
                    Seq::<usize>::empty()
                } else {
                    old(self).children(r)
                })
            },
    {
        TreeNodeOps::remove_children_of(self, id)
    }
}

impl Tree {
    /// Applies `f` to node `id` and returns what it gives, or `None` when there is no
    /// such node.
    pub fn query_node<F, B>(&self, id: &NodeId, f: F) -> (r: Option<B>)
        where
            F: FnOnce(&TreeNode) -> B,
        requires
            self.valid(id.value as int) ==> f.requires((&self.nodes@[id.value as int],)),
        ensures
            r is Some <==> self.valid(id.value as int),
            r matches Some(b) ==> f.ensures((&self.nodes@[id.value as int],), b),
    {
        if id.value < self.nodes.len() {
            Some(f(&self.nodes[id.value]))
        } else {
            None
        }
    }

    /// Applies `f` to node `id` and returns what it gives, or `default` when there is
    /// no such node.
    pub fn query_node_or<F, B>(&self, id: &NodeId, default: B, f: F) -> (r: B)
        where
            F: FnOnce(&TreeNode) -> B,
        requires
            self.valid(id.value as int) ==> f.requires((&self.nodes@[id.value as int],)),
        ensures
            self.valid(id.value as int) ==> f.ensures((&self.nodes@[id.value as int],), r),
            !self.valid(id.value as int) ==> r == default,
    {
        if id.value < self.nodes.len() {
            f(&self.nodes[id.value])
        } else {
            default
        }
    }

    /// Applies `f` to nodes `a` and `b` and returns what it gives, or `None` when either
    /// node is missing.
    pub fn compare_node<F, B>(&self, a: &NodeId, b: &NodeId, f: F) -> (r: Option<B>)
        where
            F: FnOnce(&TreeNode, &TreeNode) -> B,
        requires
            self.valid(a.value as int) && self.valid(b.value as int)
                ==> f.requires((&self.nodes@[a.value as int], &self.nodes@[b.value as int])),
        ensures
            r is Some <==> (self.valid(a.value as int) && self.valid(b.value as int)),
            r matches Some(v) ==> f.ensures((&self.nodes@[a.value as int], &self.nodes@[b.value as int]), v),
    {
        if a.value < self.nodes.len() && b.value < self.nodes.len() {
            Some(f(&self.nodes[a.value], &self.nodes[b.value]))
        } else {
            None
        }
    }
}

} // verus!
