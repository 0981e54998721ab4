//! The arena tree: its nodes, the model that the contracts speak of, and its invariant.
use vstd::prelude::*;
use crate::node::{NodeId, TreeNode, NodeData, opt_idx};
use crate::detach::children_of;

verus! {

/// An implementation of arena-tree.
///
/// Every node belongs to exactly one chain of siblings (a node without siblings
/// forms a chain of its own). The ghost fields record, for each node, its whole
/// chain of siblings, its index in that chain and its depth below its topmost
/// ancestor.
pub struct Tree {
    pub nodes: Vec<TreeNode>,
    pub chains: Ghost<Seq<Seq<usize>>>,
    pub pos: Ghost<Seq<nat>>,
    pub depth: Ghost<Seq<nat>>,
}

// ---------------------------------------------------------------------------
// Links of a node sequence
// ---------------------------------------------------------------------------

pub open spec fn par(n: Seq<TreeNode>, i: int) -> Option<usize> {
    opt_idx(n[i].parent)
}

pub open spec fn prv(n: Seq<TreeNode>, i: int) -> Option<usize> {
    opt_idx(n[i].prev_sibling)
}

pub open spec fn nxt(n: Seq<TreeNode>, i: int) -> Option<usize> {
    opt_idx(n[i].next_sibling)
}

pub open spec fn fst(n: Seq<TreeNode>, i: int) -> Option<usize> {
    opt_idx(n[i].first_child)
}

pub open spec fn lst(n: Seq<TreeNode>, i: int) -> Option<usize> {
    opt_idx(n[i].last_child)
}

pub open spec fn in_range(len: nat, o: Option<usize>) -> bool {
    o matches Some(j) ==> j < len
}

/// The node ids of `i` are the index `i` and every link points into the arena.
pub open spec fn links_ok(n: Seq<TreeNode>, i: int) -> bool {
    &&& n[i].id.value == i
    &&& in_range(n.len(), par(n, i))
    &&& in_range(n.len(), prv(n, i))
    &&& in_range(n.len(), nxt(n, i))
    &&& in_range(n.len(), fst(n, i))
    &&& in_range(n.len(), lst(n, i))
}

/// Node `i` sits at its recorded index in its chain, and its sibling links and
/// its parent agree with that chain.
pub open spec fn chain_ok(n: Seq<TreeNode>, c: Seq<Seq<usize>>, p: Seq<nat>, i: int) -> bool {
    let s = c[i];
    let k = p[i] as int;
    &&& 0 <= k < s.len()
    &&& s[k] == i
    &&& prv(n, i) == (if k == 0 { None } else { Some(s[k - 1]) })
    &&& nxt(n, i) == (if k + 1 == s.len() { None } else { Some(s[k + 1]) })
    &&& par(n, i) == par(n, s[0] as int)
}

/// The `j`-th member of the chain of `i` records that same chain, with index `j`.
pub open spec fn member_ok(len: nat, c: Seq<Seq<usize>>, p: Seq<nat>, i: int, j: int) -> bool {
    0 <= j < c[i].len() ==> {
        &&& c[i][j] < len
        &&& c[c[i][j] as int] == c[i]
        &&& p[c[i][j] as int] == j
    }
}

/// A node with a parent is in the chain of the parent's children.
pub open spec fn parent_ok(n: Seq<TreeNode>, c: Seq<Seq<usize>>, i: int) -> bool {
    par(n, i) matches Some(q) ==> {
        &&& fst(n, q as int) == Some(c[i][0])
        &&& lst(n, q as int) == Some(c[i].last())
    }
}

/// The first and last children of a node point back at it.
pub open spec fn child_ok(n: Seq<TreeNode>, p: Seq<nat>, i: int) -> bool {
    &&& fst(n, i).is_none() == lst(n, i).is_none()
    &&& (fst(n, i) matches Some(f) ==> par(n, f as int) == Some(i as usize) && p[f as int] == 0)
    &&& (lst(n, i) matches Some(l) ==> par(n, l as int) == Some(i as usize))
}

/// A child is one level deeper than its parent: parent links have no cycle.
pub open spec fn depth_ok(n: Seq<TreeNode>, d: Seq<nat>, i: int) -> bool {
    par(n, i) matches Some(q) ==> d[i] == d[q as int] + 1
}

pub open spec fn node_ok(n: Seq<TreeNode>, c: Seq<Seq<usize>>, p: Seq<nat>, d: Seq<nat>, i: int) -> bool {
    &&& links_ok(n, i)
    &&& chain_ok(n, c, p, i)
    &&& parent_ok(n, c, i)
    &&& child_ok(n, p, i)
    &&& depth_ok(n, d, i)
}

/// The structural invariant of an arena of nodes with its ghost model.
pub open spec fn wf_parts(n: Seq<TreeNode>, c: Seq<Seq<usize>>, p: Seq<nat>, d: Seq<nat>) -> bool {
    &&& c.len() == n.len()
    &&& p.len() == n.len()
    &&& d.len() == n.len()
    &&& forall|i: int| 0 <= i < n.len() ==> #[trigger] node_ok(n, c, p, d, i)
    &&& forall|i: int, j: int| 0 <= i < n.len() ==> #[trigger] member_ok(n.len(), c, p, i, j)
}

/// `m` is `a` or lies in the subtree below `a`.
pub open spec fn is_desc(n: Seq<TreeNode>, d: Seq<nat>, m: int, a: int) -> bool
    decreases d[m],
{
    if m == a {
        true
    } else {
        match par(n, m) {
            Some(q) => if d[q as int] < d[m] { is_desc(n, d, q as int, a) } else { false },
            None => false,
        }
    }
}

// ---------------------------------------------------------------------------
// The model of a tree
// ---------------------------------------------------------------------------

impl Tree {
    pub open spec fn wf(&self) -> bool {
        wf_parts(self.nodes@, self.chains@, self.pos@, self.depth@)
    }

    /// The number of nodes in the arena.
    pub open spec fn len(&self) -> nat {
        self.nodes@.len()
    }

    pub open spec fn valid(&self, i: int) -> bool {
        0 <= i < self.nodes@.len()
    }

    /// The arena slot of node `i`.
    pub open spec fn node(&self, i: int) -> TreeNode {
        self.nodes@[i]
    }

    pub open spec fn data(&self, i: int) -> NodeData {
        self.nodes@[i].data
    }

    pub open spec fn parent(&self, i: int) -> Option<usize> {
        par(self.nodes@, i)
    }

    pub open spec fn prev(&self, i: int) -> Option<usize> {
        prv(self.nodes@, i)
    }

    pub open spec fn next(&self, i: int) -> Option<usize> {
        nxt(self.nodes@, i)
    }

    pub open spec fn first(&self, i: int) -> Option<usize> {
        fst(self.nodes@, i)
    }

    pub open spec fn last(&self, i: int) -> Option<usize> {
        lst(self.nodes@, i)
    }

    /// The chain of siblings that node `i` belongs to, `i` included, in order.
    pub open spec fn siblings(&self, i: int) -> Seq<usize> {
        self.chains@[i]
    }

    /// The index of node `i` in its chain of siblings.
    pub open spec fn index(&self, i: int) -> int {
        self.pos@[i] as int
    }

    /// The children of node `i`, in order.
    pub open spec fn children(&self, i: int) -> Seq<usize> {
        children_of(self.nodes@, self.chains@, i)
    }

    /// `m` is `a` itself or lies in the subtree below `a`.
    pub open spec fn is_inclusive_descendant(&self, m: int, a: int) -> bool {
        is_desc(self.nodes@, self.depth@, m, a)
    }

    /// Every payload is the same in both trees, which have the same size.
    pub open spec fn same_data(&self, other: &Tree) -> bool {
        &&& self.nodes@.len() == other.nodes@.len()
        &&& forall|i: int| 0 <= i < self.nodes@.len() ==> #[trigger] self.nodes@[i].data == other.nodes@[i].data
    }

    /// Creates a new tree with the given root.
    pub fn new(root: NodeData) -> (r: Self)
        ensures
            r.wf(),
            r.len() == 1,
            r.data(0) == root,
            r.parent(0).is_none(),
            r.children(0) == Seq::<usize>::empty(),
            r.siblings(0) == seq![0usize],
    {
        let root_id = NodeId::new(0);
        let mut nodes: Vec<TreeNode> = Vec::new();
        nodes.push(TreeNode::new(root_id, root));
        let ghost c: Seq<Seq<usize>> = seq![seq![0usize]];
        let ghost p: Seq<nat> = seq![0nat];
        let r = Tree { nodes, chains: Ghost(c), pos: Ghost(p), depth: Ghost(p) };
        assert(node_ok(r.nodes@, r.chains@, r.pos@, r.depth@, 0));
        assert forall|i: int, j: int| 0 <= i < r.nodes@.len() implies #[trigger] member_ok(
            r.nodes@.len(),
            r.chains@,
            r.pos@,
            i,
            j,
        ) by {}
        r
    }

    /// Returns the root node id.
    pub fn root_id(&self) -> (r: NodeId)
        ensures
            r.value == 0,
    {
        NodeId { value: 0 }
    }

    /// The number of nodes in the arena.
    pub fn nodes_len(&self) -> (r: usize)
        ensures
            r == self.len(),
    {
        self.nodes.len()
    }

    /// Gets the arena slot of a node by id.
    pub fn get_node(&self, id: &NodeId) -> (r: Option<&TreeNode>)
        ensures
            r == (if self.valid(id.value as int) { Some(&self.nodes@[id.value as int]) } else { None }),
    {
        if id.value < self.nodes.len() {
            Some(&self.nodes[id.value])
        } else {
            None
        }
    }

    /// Creates a new detached node with the given data; its id is the next free index.
    pub fn create_node(&mut self, data: NodeData) -> (r: NodeId)
        requires
            old(self).wf(),
        ensures
            final(self).wf(),
            r.value == old(self).len(),
            final(self).len() == old(self).len() + 1,
            final(self).nodes@ == old(self).nodes@.push(TreeNode::new_spec(r, data)),
            final(self).siblings(r.value as int) == seq![r.value],
            forall|i: int| 0 <= i < old(self).len() ==> #[trigger] final(self).siblings(i) == old(self).siblings(i),
            forall|i: int| 0 <= i < old(self).len() ==> #[trigger] final(self).index(i) == old(self).index(i),
            forall|i: int| 0 <= i < old(self).len() ==> #[trigger] final(self).children(i) == old(self).children(i),
            final(self).children(r.value as int) == Seq::<usize>::empty(),
            forall|m: int, a: int| 0 <= m < old(self).len() ==> (#[trigger] final(self).is_inclusive_descendant(m, a) == old(self).is_inclusive_descendant(m, a)),
    {
        let ghost old_t = *self;
        let id = NodeId::new(self.nodes.len());
        self.nodes.push(TreeNode::new(id, data));
        let ghost len = old_t.nodes@.len();
        proof {
            self.chains@ = self.chains@.push(seq![id.value]);
            self.pos@ = self.pos@.push(0nat);
            self.depth@ = self.depth@.push(0nat);
            let n = self.nodes@;
            let c = self.chains@;
            let p = self.pos@;
            let d = self.depth@;
            assert forall|i: int| 0 <= i < n.len() implies #[trigger] node_ok(n, c, p, d, i) by {
                if i < len {
                    assert(node_ok(old_t.nodes@, old_t.chains@, old_t.pos@, old_t.depth@, i));
                    let s = c[i];
                    assert(member_ok(len, old_t.chains@, old_t.pos@, i, 0));
                    if let Some(q) = par(n, i) {
                        assert(member_ok(len, old_t.chains@, old_t.pos@, i, s.len() - 1));
                    }
                    if let Some(f) = fst(n, i) {
                        assert(node_ok(old_t.nodes@, old_t.chains@, old_t.pos@, old_t.depth@, f as int));
                    }
                }
            }
            assert forall|i: int, j: int| 0 <= i < n.len() implies #[trigger] member_ok(n.len(), c, p, i, j) by {
                if i < len {
                    assert(member_ok(len, old_t.chains@, old_t.pos@, i, j));
                }
            }
            assert forall|i: int| 0 <= i < len implies #[trigger] self.children(i) == old_t.children(i) by {
                assert(node_ok(old_t.nodes@, old_t.chains@, old_t.pos@, old_t.depth@, i));
            }
            assert forall|m: int, a: int| 0 <= m < len implies #[trigger] is_desc(n, d, m, a) == is_desc(old_t.nodes@, old_t.depth@, m, a) by {
                lemma_is_desc_prefix(old_t, *self, m, a);
            }
        }
        id
    }
}

impl TreeNode {
    pub open spec fn new_spec(id: NodeId, data: NodeData) -> TreeNode {
        TreeNode {
            id,
            parent: None,
            prev_sibling: None,
            next_sibling: None,
            first_child: None,
            last_child: None,
            data,
        }
    }
}

/// Growing the arena keeps the ancestry of the old nodes.
pub proof fn lemma_is_desc_prefix(t: Tree, u: Tree, m: int, a: int)
    requires
        t.wf(),
        t.nodes@.len() <= u.nodes@.len(),
        0 <= m < t.nodes@.len(),
        forall|i: int| 0 <= i < t.nodes@.len() ==> #[trigger] u.nodes@[i] == t.nodes@[i],
        forall|i: int| 0 <= i < t.nodes@.len() ==> #[trigger] u.depth@[i] == t.depth@[i],
    ensures
        is_desc(u.nodes@, u.depth@, m, a) == is_desc(t.nodes@, t.depth@, m, a),
    decreases t.depth@[m],
{
    assert(node_ok(t.nodes@, t.chains@, t.pos@, t.depth@, m));
    if m != a {
        if let Some(q) = par(t.nodes@, m) {
            lemma_is_desc_prefix(t, u, q as int, a);
        }
    }
}

} // verus!
