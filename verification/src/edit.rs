//! Edits that create nodes or change what a node holds.
use vstd::prelude::*;
use crate::node::{NodeId, NodeData, TreeNode};
use crate::tree::{Tree, node_ok, member_ok, lemma_is_desc_prefix};
use crate::ops::{TreeNodeOps, moved, children_without};
use crate::merge::{closed_below, lemma_closed_not_desc};

verus! {

/// The node `id` provides, for the edits that take any node-like value.
pub trait NodeIdProver {
    spec fn provided_id(&self) -> NodeId;

    /// The id of the node.
    fn node_id(&self) -> (r: NodeId)
        ensures
            r == self.provided_id();
}

impl NodeIdProver for NodeId {
    open spec fn provided_id(&self) -> NodeId {
        *self
    }

    fn node_id(&self) -> (r: NodeId) {
        *self
    }
}

impl<'a> NodeIdProver for crate::noderef::NodeRef<'a> {
    open spec fn provided_id(&self) -> NodeId {
        self.id
    }

    fn node_id(&self) -> (r: NodeId) {
        self.id
    }
}

/// Node `x` of `u` holds `data`; every other slot, and every link, is as in `t`.
pub open spec fn data_replaced(t: Tree, u: Tree, x: int, data: NodeData) -> bool {
    &&& u.nodes@.len() == t.nodes@.len()
    &&& u.chains@ == t.chains@
    &&& u.pos@ == t.pos@
    &&& u.depth@ == t.depth@
    &&& u.nodes@[x] == (TreeNode { data: data, ..t.nodes@[x] })
    &&& forall|i: int| 0 <= i < t.nodes@.len() && i != x ==> #[trigger] u.nodes@[i] == t.nodes@[i]
}

impl TreeNodeOps {
    /// Creates a detached node with the given data.
    pub fn create_node(tree: &mut Tree, data: NodeData) -> (r: NodeId)
        requires
            old(tree).wf(),
        ensures
            final(tree).wf(),
            r.value == old(tree).len(),
            final(tree).nodes@ == old(tree).nodes@.push(TreeNode::new_spec(r, data)),
            forall|i: int| 0 <= i < old(tree).len() ==> #[trigger] final(tree).children(i) == old(tree).children(i),
    {
        tree.create_node(data)
    }

    /// Creates a node from data and appends it to node `id` (see [`Tree::append_child_data_of`]).
    pub fn append_child_data_of(tree: &mut Tree, id: &NodeId, data: NodeData)
        requires
            old(tree).wf(),
        ensures
            final(tree).wf(),
            final(tree).len() == old(tree).len() + 1,
            final(tree).data(old(tree).len() as int) == data,
            forall|i: int| 0 <= i < old(tree).len() ==> #[trigger] final(tree).data(i) == old(tree).data(i),
            forall|m: int| 0 <= m < old(tree).len() ==> #[trigger] final(tree).parent(m) == old(tree).parent(m),
            old(tree).valid(id.value as int) ==> {
                &&& final(tree).parent(old(tree).len() as int) == Some(id.value)
                &&& final(tree).children(id.value as int) == old(tree).children(id.value as int).push(old(tree).len() as usize)
                &&& forall|q: int| 0 <= q < old(tree).len() && q != id.value ==> #[trigger] final(tree).children(q) == old(tree).children(q)
            },
            !old(tree).valid(id.value as int) ==> {
                &&& final(tree).parent(old(tree).len() as int).is_none()
                &&& forall|q: int| 0 <= q < old(tree).len() ==> #[trigger] final(tree).children(q) == old(tree).children(q)
            },
    {
        tree.append_child_data_of(id, data)
    }

    /// Replaces what a node holds with the text: an element's children are detached
    /// and a new text node becomes its only child; a text node gets the text as its
    /// contents; other nodes stay as they are.
    pub fn set_text(tree: &mut Tree, id: &NodeId, text: &str)
        requires
            old(tree).wf(),
            old(tree).valid(id.value as int),
        ensures
            final(tree).wf(),
            old(tree).data(id.value as int) is Element ==> {
                let x = id.value as int;
                let n = old(tree).len();
                &&& final(tree).len() == n + 1
                &&& final(tree).data(n as int) matches NodeData::Text { contents } && contents@ == text@
                &&& final(tree).children(x) == seq![n as usize]
                &&& final(tree).parent(n as int) == Some(id.value)
                &&& forall|i: int| 0 <= i < n ==> #[trigger] final(tree).data(i) == old(tree).data(i)
                &&& forall|m: int| 0 <= m < n ==> #[trigger] final(tree).parent(m) == (if old(tree).parent(m) == Some(id.value) {
                    None
                } else {
                    old(tree).parent(m)
                })
                &&& forall|q: int| 0 <= q < n && q != x ==> #[trigger] final(tree).children(q) == old(tree).children(q)
            },
            old(tree).data(id.value as int) is Text ==> {
                let x = id.value as int;
                &&& final(tree).len() == old(tree).len()
                &&& final(tree).data(x) matches NodeData::Text { contents } && contents@ == text@
                &&& forall|i: int| 0 <= i < old(tree).len() && i != x ==> #[trigger] final(tree).data(i) == old(tree).data(i)
                &&& forall|m: int| 0 <= m < old(tree).len() ==> #[trigger] final(tree).parent(m) == old(tree).parent(m)
                &&& forall|q: int| 0 <= q < old(tree).len() ==> #[trigger] final(tree).children(q) == old(tree).children(q)
            },
            !(old(tree).data(id.value as int) is Element) && !(old(tree).data(id.value as int) is Text) ==> *final(tree) == *old(tree),
    {
        let x = id.value;
        let ghost t0 = *tree;
        let mut s = String::new();
        crate::text::push_str(&mut s, text);
        if tree.nodes[x].is_element() {
            let new_id = tree.create_node(NodeData::Text { contents: s });
            let ghost t1 = *tree;
            Self::reparent_children_of(tree, id, None);
            let ghost t2 = *tree;
            proof {
                assert forall|m: int| 0 <= m < t0.len() implies (#[trigger] t2.parent(m) matches Some(q) ==> q < t0.len()) by {
                    assert(node_ok(t0.nodes@, t0.chains@, t0.pos@, t0.depth@, m));
                    assert(t1.parent(m) == t0.parent(m));
                }
                lemma_closed_not_desc(t2, t0.len() as int, x as int, new_id.value as int);
                assert(t1.parent(new_id.value as int).is_none());
                assert(t2.parent(new_id.value as int).is_none());
            }
            Self::append_child_of(tree, id, &new_id);
            proof {
                let u = *tree;
                let nv = new_id.value as int;
                let sw = children_without(t2, nv, x as int);
                assert(moved(t2, u, nv, Some(x), sw, sw.len() as int));
                assert(t2.children(x as int) == Seq::<usize>::empty());
                assert(sw == Seq::<usize>::empty());
                assert(u.children(x as int) =~= seq![new_id.value]);
                assert forall|q: int| 0 <= q < t0.len() && q != x implies #[trigger] u.children(q) == t0.children(q) by {
                    assert(Some(x) != Some(q as usize));
                    assert(u.children(q) == children_without(t2, nv, q));
                    assert(t2.children(q) == t1.children(q));
                }
                assert forall|m: int| 0 <= m < t0.len() implies #[trigger] u.parent(m) == (if t0.parent(m) == Some(x) {
                    None
                } else {
                    t0.parent(m)
                }) by {
                    assert(u.parent(m) == t2.parent(m));
                    assert(t1.parent(m) == t0.parent(m));
                }
                assert forall|i: int| 0 <= i < t0.len() implies #[trigger] u.data(i) == t0.data(i) by {
                    assert(u.nodes@[i].data == t2.nodes@[i].data);
                    assert(t2.nodes@[i].data == t1.nodes@[i].data);
                }
                assert(u.nodes@[nv].data == t2.nodes@[nv].data);
                assert(t2.nodes@[nv].data == t1.nodes@[nv].data);
            }
        } else if tree.nodes[x].is_text() {
            let old_node = &tree.nodes[x];
            let nd = TreeNode {
                id: old_node.id,
                parent: old_node.parent,
                prev_sibling: old_node.prev_sibling,
                next_sibling: old_node.next_sibling,
                first_child: old_node.first_child,
                last_child: old_node.last_child,
                data: NodeData::Text { contents: s },
            };
            tree.nodes.set(x, nd);
            proof {
                let u = *tree;
                lemma_data_replaced_wf(t0, u, x as int, u.nodes@[x as int].data);
                assert forall|q: int| 0 <= q < t0.len() implies #[trigger] u.children(q) == t0.children(q) by {
                    assert(node_ok(t0.nodes@, t0.chains@, t0.pos@, t0.depth@, q));
                }
            }
        }
    }
}

/// Changing what a node holds keeps the structure of the tree.
pub proof fn lemma_data_replaced_wf(t: Tree, u: Tree, x: int, data: NodeData)
    requires
        t.wf(),
        0 <= x < t.len(),
        data_replaced(t, u, x, data),
    ensures
        u.wf(),
        forall|m: int| 0 <= m < t.len() ==> #[trigger] u.parent(m) == t.parent(m),
{
    let (n, c, p, d) = (t.nodes@, t.chains@, t.pos@, t.depth@);
    let n2 = u.nodes@;
    assert forall|i: int| 0 <= i < n2.len() implies #[trigger] node_ok(n2, c, p, d, i) by {
        assert(node_ok(n, c, p, d, i));
        let s = c[i];
        assert(member_ok(n.len(), c, p, i, 0));
        assert(n2[s[0] as int].parent == n[s[0] as int].parent);
        if let Some(q) = crate::tree::par(n, i) {
            assert(n2[q as int].first_child == n[q as int].first_child);
            assert(n2[q as int].last_child == n[q as int].last_child);
        }
        if let Some(f) = crate::tree::fst(n, i) {
            assert(n2[f as int].parent == n[f as int].parent);
        }
        if let Some(l) = crate::tree::lst(n, i) {
            assert(n2[l as int].parent == n[l as int].parent);
        }
    }
    assert forall|i: int, j: int| 0 <= i < n2.len() implies #[trigger] member_ok(n2.len(), c, p, i, j) by {
        assert(member_ok(n.len(), c, p, i, j));
    }
    assert forall|m: int| 0 <= m < t.len() implies #[trigger] u.parent(m) == t.parent(m) by {
        assert(n2[m].parent == n[m].parent);
    }
}

} // verus!
