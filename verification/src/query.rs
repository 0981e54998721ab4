//! Read-only queries on the tree: siblings, children and ancestors.
use vstd::prelude::*;
use crate::node::{NodeId, TreeNode, NodeData};
use crate::tree::{Tree, wf_parts, node_ok, member_ok, par, prv, nxt, fst, lst, is_desc};
use crate::ops::TreeNodeOps;
use crate::detach::{lemma_neighbours, children_of};
use crate::reparent::lemma_children_are_childs;

verus! {

/// The element nodes of `s` at indices in `lo..hi`: none of them is an element.
pub open spec fn no_element_in(t: &Tree, s: Seq<usize>, lo: int, hi: int) -> bool {
    forall|j: int| lo <= j < hi ==> !(#[trigger] t.data(s[j] as int) is Element)
}

/// The first element of `s` at an index `>= lo`.
pub open spec fn first_element_from(t: &Tree, s: Seq<usize>, lo: int) -> Option<usize> {
    if exists|j: int| lo <= j < s.len() && (#[trigger] t.data(s[j] as int) is Element) {
        let j = choose|j: int| lo <= j < s.len() && (#[trigger] t.data(s[j] as int) is Element) && no_element_in(t, s, lo, j);
        Some(s[j])
    } else {
        None
    }
}

/// The last element of `s` at an index `< hi`.
pub open spec fn last_element_before(t: &Tree, s: Seq<usize>, hi: int) -> Option<usize> {
    if exists|j: int| 0 <= j < hi && (#[trigger] t.data(s[j] as int) is Element) {
        let j = choose|j: int| 0 <= j < hi && (#[trigger] t.data(s[j] as int) is Element) && no_element_in(t, s, j + 1, hi);
        Some(s[j])
    } else {
        None
    }
}

/// The ancestors of `x`, nearest first.
pub open spec fn ancestors_of(n: Seq<TreeNode>, d: Seq<nat>, x: int) -> Seq<usize>
    decreases d[x],
{
    match par(n, x) {
        Some(q) => if d[q as int] < d[x] { seq![q].add(ancestors_of(n, d, q as int)) } else { Seq::empty() },
        None => Seq::empty(),
    }
}

impl Tree {
    /// The ancestors of node `i`, parent first.
    pub open spec fn ancestors(&self, i: int) -> Seq<usize> {
        ancestors_of(self.nodes@, self.depth@, i)
    }
}

pub open spec fn ids_of(v: Seq<NodeId>) -> Seq<usize> {
    v.map_values(|id: NodeId| id.value)
}

pub proof fn lemma_first_element_from(t: &Tree, s: Seq<usize>, lo: int, j: int)
    requires
        lo <= j < s.len(),
        t.data(s[j] as int) is Element,
        no_element_in(t, s, lo, j),
    ensures
        first_element_from(t, s, lo) == Some(s[j]),
{
    let k = choose|k: int| lo <= k < s.len() && (#[trigger] t.data(s[k] as int) is Element) && no_element_in(t, s, lo, k);
    if k < j {
        assert(!(t.data(s[k] as int) is Element));
    } else if k > j {
        assert(!(t.data(s[j] as int) is Element));
    }
}

proof fn lemma_last_element_before(t: &Tree, s: Seq<usize>, hi: int, j: int)
    requires
        0 <= j < hi,
        t.data(s[j] as int) is Element,
        no_element_in(t, s, j + 1, hi),
    ensures
        last_element_before(t, s, hi) == Some(s[j]),
{
    let k = choose|k: int| 0 <= k < hi && (#[trigger] t.data(s[k] as int) is Element) && no_element_in(t, s, k + 1, hi);
    if k < j {
        assert(!(t.data(s[j] as int) is Element));
    } else if k > j {
        assert(!(t.data(s[k] as int) is Element));
    }
}

impl TreeNodeOps {
    /// Gets the last sibling of a node: it walks the following siblings of the node and
    /// returns the last one it found, or `None` if the node has no following sibling.
    pub fn last_sibling_of(tree: &Tree, id: &NodeId) -> (r: Option<NodeId>)
        requires
            tree.wf(),
        ensures
            r == (if tree.valid(id.value as int) && tree.index(id.value as int) + 1 < tree.siblings(id.value as int).len() {
                Some(NodeId { value: tree.siblings(id.value as int).last() })
            } else {
                None
            }),
    {
        let x = id.value;
        if x >= tree.nodes.len() {
            return None;
        }
        let ghost s = tree.siblings(x as int);
        let ghost n = tree.nodes@;
        proof {
            lemma_neighbours(n, tree.chains@, tree.pos@, tree.depth@, x as int);
            assert(node_ok(n, tree.chains@, tree.pos@, tree.depth@, x as int));
        }
        let mut next_node = tree.nodes[x].next_sibling;
        let mut last_node: Option<NodeId> = None;
        let ghost mut j: int = tree.index(x as int);
        while next_node.is_some()
            invariant
                tree.wf(),
                0 <= j < s.len(),
                s == tree.siblings(x as int),
                forall|i: int| #![trigger s[i]] 0 <= i < s.len() ==> s[i] < n.len() && tree.chains@[s[i] as int] == s && tree.pos@[s[i] as int] == i,
                n == tree.nodes@,
                next_node == crate::attach::to_id(crate::attach::at(s, j + 1)),
                last_node == (if j == tree.index(x as int) { None } else { Some(NodeId { value: s[j] }) }),
                j >= tree.index(x as int),
            decreases s.len() - j,
        {
            let nid = next_node.unwrap();
            proof {
                assert(node_ok(n, tree.chains@, tree.pos@, tree.depth@, s[j + 1] as int));
            }
            let nn = tree.nodes[nid.value].next_sibling;
            last_node = Some(nid);
            next_node = nn;
            proof {
                j = j + 1;
            }
        }
        last_node
    }

    /// Returns the next sibling id, that is an element, of the selected node.
    pub fn next_element_sibling_of(tree: &Tree, id: &NodeId) -> (r: Option<NodeId>)
        requires
            tree.wf(),
        ensures
            r matches Some(y) ==> y.value < tree.len(),
            crate::node::opt_idx(r) == (if tree.valid(id.value as int) {
                first_element_from(tree, tree.siblings(id.value as int), tree.index(id.value as int) + 1)
            } else {
                None
            }),
    {
        let x = id.value;
        if x >= tree.nodes.len() {
            return None;
        }
        let ghost s = tree.siblings(x as int);
        let ghost n = tree.nodes@;
        let ghost i0 = tree.index(x as int);
        proof {
            lemma_neighbours(n, tree.chains@, tree.pos@, tree.depth@, x as int);
            assert(node_ok(n, tree.chains@, tree.pos@, tree.depth@, x as int));
        }
        let mut cur = x;
        let ghost mut k: int = i0;
        loop
            invariant
                tree.wf(),
                0 <= i0 <= k < s.len(),
                i0 == tree.index(x as int),
                x == id.value,
                x < n.len(),
                s == tree.siblings(x as int),
                forall|i: int| #![trigger s[i]] 0 <= i < s.len() ==> s[i] < n.len() && tree.chains@[s[i] as int] == s && tree.pos@[s[i] as int] == i,
                n == tree.nodes@,
                cur == s[k],
                no_element_in(tree, s, i0 + 1, k + 1),
            decreases s.len() - k,
        {
            proof {
                assert(0 <= k < s.len());
                assert(s[k] < n.len());
                assert(node_ok(n, tree.chains@, tree.pos@, tree.depth@, cur as int));
            }
            match tree.nodes[cur].next_sibling {
                Some(nid) => {
                    proof {
                        assert(nid.value == s[k + 1]);
                        assert(s[k + 1] < n.len());
                        assert(node_ok(n, tree.chains@, tree.pos@, tree.depth@, nid.value as int));
                    }
                    cur = nid.value;
                    proof {
                        k = k + 1;
                    }
                    if tree.nodes[cur].is_element() {
                        proof {
                            lemma_first_element_from(tree, s, i0 + 1, k);
                            assert(tree.nodes@[cur as int].id.value == cur);
                            assert(first_element_from(tree, s, i0 + 1) == Some(cur));
                            assert(s == tree.siblings(id.value as int));
                            assert(i0 == tree.index(id.value as int));
                        }
                        return Some(tree.nodes[cur].id);
                    }
                },
                None => {
                    proof {
                        assert(k + 1 == s.len());
                        assert(!exists|k: int| i0 + 1 <= k < s.len() && (#[trigger] tree.data(s[k] as int) is Element));
                    }
                    return None;
                },
            }
        }
    }

    /// Returns the previous sibling id, that is an element, of the selected node.
    pub fn prev_element_sibling_of(tree: &Tree, id: &NodeId) -> (r: Option<NodeId>)
        requires
            tree.wf(),
        ensures
            crate::node::opt_idx(r) == (if tree.valid(id.value as int) {
                last_element_before(tree, tree.siblings(id.value as int), tree.index(id.value as int))
            } else {
                None
            }),
    {
        let x = id.value;
        if x >= tree.nodes.len() {
            return None;
        }
        let ghost s = tree.siblings(x as int);
        let ghost n = tree.nodes@;
        let ghost i0 = tree.index(x as int);
        proof {
            lemma_neighbours(n, tree.chains@, tree.pos@, tree.depth@, x as int);
            assert(node_ok(n, tree.chains@, tree.pos@, tree.depth@, x as int));
        }
        let mut cur = x;
        let ghost mut k: int = i0;
        loop
            invariant
                tree.wf(),
                0 <= k <= i0 < s.len(),
                i0 == tree.index(x as int),
                x == id.value,
                x < n.len(),
                s == tree.siblings(x as int),
                forall|i: int| #![trigger s[i]] 0 <= i < s.len() ==> s[i] < n.len() && tree.chains@[s[i] as int] == s && tree.pos@[s[i] as int] == i,
                n == tree.nodes@,
                cur == s[k],
                no_element_in(tree, s, k, i0),
            decreases k,
        {
            proof {
                assert(s[k] < n.len());
                assert(node_ok(n, tree.chains@, tree.pos@, tree.depth@, cur as int));
            }
            match tree.nodes[cur].prev_sibling {
                Some(pid) => {
                    proof {
                        assert(pid.value == s[k - 1]);
                        assert(s[k - 1] < n.len());
                        assert(node_ok(n, tree.chains@, tree.pos@, tree.depth@, pid.value as int));
                    }
                    cur = pid.value;
                    proof {
                        k = k - 1;
                    }
                    if tree.nodes[cur].is_element() {
                        proof {
                            lemma_last_element_before(tree, s, i0, k);
                        }
                        return Some(tree.nodes[cur].id);
                    }
                },
                None => {
                    proof {
                        assert(k == 0);
                        assert(!exists|k: int| 0 <= k < i0 && (#[trigger] tree.data(s[k] as int) is Element));
                    }
                    return None;
                },
            }
        }
    }

    /// Returns the first child id, that is an element, of the selected node.
    pub fn first_element_child_of(tree: &Tree, id: &NodeId) -> (r: Option<NodeId>)
        requires
            tree.wf(),
        ensures
            crate::node::opt_idx(r) == (if tree.valid(id.value as int) {
                first_element_from(tree, tree.children(id.value as int), 0)
            } else {
                None
            }),
    {
        let x = id.value;
        if x >= tree.nodes.len() {
            return None;
        }
        let ghost s = tree.children(x as int);
        let ghost n = tree.nodes@;
        proof {
            lemma_children_are_childs(n, tree.chains@, tree.pos@, tree.depth@, x as int);
            assert(node_ok(n, tree.chains@, tree.pos@, tree.depth@, x as int));
            if let Some(f) = fst(n, x as int) {
                assert(node_ok(n, tree.chains@, tree.pos@, tree.depth@, f as int));
                assert(member_ok(n.len(), tree.chains@, tree.pos@, f as int, 0));
            }
        }
        let mut next_child_id = tree.nodes[x].first_child;
        let ghost mut k: int = 0;
        while next_child_id.is_some()
            invariant
                tree.wf(),
                0 <= k <= s.len(),
                s == tree.children(x as int),
                x == id.value,
                x < n.len(),
                forall|i: int| #![trigger s[i]] 0 <= i < s.len() ==> s[i] < n.len() && tree.chains@[s[i] as int] == s && tree.pos@[s[i] as int] == i,
                n == tree.nodes@,
                next_child_id == crate::attach::to_id(crate::attach::at(s, k)),
                no_element_in(tree, s, 0, k),
            decreases s.len() - k,
        {
            let cid = next_child_id.unwrap();
            proof {
                assert(cid.value == s[k]);
                assert(s[k] < n.len());
                assert(node_ok(n, tree.chains@, tree.pos@, tree.depth@, cid.value as int));
            }
            if tree.nodes[cid.value].is_element() {
                proof {
                    lemma_first_element_from(tree, s, 0, k);
                }
                return Some(cid);
            }
            next_child_id = tree.nodes[cid.value].next_sibling;
            proof {
                k = k + 1;
                if k < s.len() {
                    assert(s[k] < n.len());
                }
            }
        }
        proof {
            assert(!exists|k: int| 0 <= k < s.len() && (#[trigger] tree.data(s[k] as int) is Element));
        }
        None
    }

    /// Checks if the given node id is valid in the tree.
    pub fn is_valid_node_id(tree: &Tree, id: &NodeId) -> (r: bool)
        requires
            tree.wf(),
        ensures
            r == tree.valid(id.value as int),
    {
        if id.value < tree.nodes.len() {
            proof {
                assert(node_ok(tree.nodes@, tree.chains@, tree.pos@, tree.depth@, id.value as int));
            }
            tree.nodes[id.value].id.value == id.value
        } else {
            false
        }
    }
}

} // verus!
