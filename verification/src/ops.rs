//! Edits of the tree's structure, with what each one does to the model.
use vstd::prelude::*;
use crate::node::{NodeId, TreeNode, NodeData};
use crate::tree::{Tree, wf_parts, node_ok, par, prv, nxt, fst, lst};
use crate::detach::{detach_nodes, detach_node_at, detach_chains, detach_poss, lemma_detach_wf, lemma_detach_model, lemma_neighbours, children_of};
use crate::reparent::{reparent_nodes, reparent_prefix_at, reparent_node_at, reparent_depths, reparent_ok, lemma_reparent_wf, lemma_reparent_model, lemma_reparent_self, lemma_children_are_childs};
use crate::chains::{chain_from, chain_before, lemma_chain_members};
use crate::attach::{attach_nodes, attach_node_at, attach_chains, attach_poss, attach_depths, attach_ok, lemma_attach_wf, lemma_attach_model, to_id, before, at};

verus! {

/// Tree edits and queries that work directly on the arena.
pub struct TreeNodeOps {}

/// The children of `q` once `x` has left its parent.
pub open spec fn children_without(t: Tree, x: int, q: int) -> Seq<usize> {
    if t.parent(x) == Some(q as usize) {
        t.children(q).remove(t.index(x))
    } else {
        t.children(q)
    }
}

/// The siblings of `m` once `x` has left its chain of siblings.
pub open spec fn siblings_without(t: Tree, x: int, m: int) -> Seq<usize> {
    if m == x {
        seq![x as usize]
    } else if t.siblings(m) == t.siblings(x) {
        t.siblings(x).remove(t.index(x))
    } else {
        t.siblings(m)
    }
}

/// `u` is `t` once node `x` has left its parent and its siblings.
pub open spec fn detached(t: Tree, u: Tree, x: int) -> bool {
    &&& u.wf()
    &&& u.same_data(&t)
    &&& u.parent(x).is_none()
    &&& forall|m: int| 0 <= m < t.len() && m != x ==> #[trigger] u.parent(m) == t.parent(m)
    &&& forall|m: int| 0 <= m < t.len() ==> #[trigger] u.siblings(m) == siblings_without(t, x, m)
    &&& forall|q: int| 0 <= q < t.len() ==> #[trigger] u.children(q) == children_without(t, x, q)
    &&& forall|m: int| 0 <= m < t.len() ==> #[trigger] u.is_inclusive_descendant(m, x) == t.is_inclusive_descendant(m, x)
}

/// `o` holds exactly the node `id`.
pub fn is_id(o: Option<NodeId>, id: NodeId) -> (r: bool)
    ensures
        r == (o == Some(id)),
{
    match o {
        Some(v) => v.value == id.value,
        None => false,
    }
}

/// The index of `m` among its siblings once `x` has left its chain of siblings.
pub open spec fn index_without(t: Tree, x: int, m: int) -> int {
    if t.siblings(m) == t.siblings(x) && t.index(m) > t.index(x) {
        t.index(m) - 1
    } else {
        t.index(m)
    }
}

/// `u` is `t` once node `x` has left its place and entered chain `s` (as it was after `x`
/// left it) at index `k`, below parent `o`.
pub open spec fn moved(t: Tree, u: Tree, x: int, o: Option<usize>, s: Seq<usize>, k: int) -> bool {
    &&& u.wf()
    &&& u.same_data(&t)
    &&& u.parent(x) == o
    &&& forall|m: int| 0 <= m < t.len() && m != x ==> #[trigger] u.parent(m) == t.parent(m)
    &&& forall|q: int| 0 <= q < t.len() ==> #[trigger] u.children(q) == (if o == Some(q as usize) {
        s.insert(k, x as usize)
    } else {
        children_without(t, x, q)
    })
    &&& forall|m: int| 0 <= m < t.len() ==> #[trigger] u.siblings(m) == (if m == x || siblings_without(t, x, m) == s {
        s.insert(k, x as usize)
    } else {
        siblings_without(t, x, m)
    })
    &&& forall|m: int| 0 <= m < t.len() ==> #[trigger] u.is_inclusive_descendant(m, x) == t.is_inclusive_descendant(m, x)
}

/// Puts detached node `x` at index `k` of chain `s` below `o`, once the links are written.
proof fn lemma_finish_attach(t0: Tree, t1: Tree, u: Tree, x: int, o: Option<usize>, s: Seq<usize>, k: int)
    requires
        t1.wf(),
        detached(t0, t1, x),
        0 <= x < t1.len(),
        attach_ok(t1.nodes@, t1.chains@, t1.depth@, x, o, s, k),
        u.nodes@ == attach_nodes(t1.nodes@, x, o, s, k),
        u.chains@ == attach_chains(t1.chains@, x, s, k),
        u.pos@ == attach_poss(t1.chains@, t1.pos@, x, s, k),
        u.depth@ == attach_depths(t1.nodes@, t1.depth@, x, o),
    ensures
        moved(t0, u, x, o, s, k),
{
    lemma_attach_wf(t1.nodes@, t1.chains@, t1.pos@, t1.depth@, x, o, s, k);
    lemma_attach_model(t1.nodes@, t1.chains@, t1.pos@, t1.depth@, x, o, s, k);
    assert forall|i: int| 0 <= i < u.nodes@.len() implies #[trigger] u.nodes@[i].data == t0.nodes@[i].data by {
        assert(t1.nodes@[i].data == t0.nodes@[i].data);
    }
    assert forall|m: int| 0 <= m < t0.len() && m != x implies #[trigger] u.parent(m) == t0.parent(m) by {
        assert(t1.parent(m) == t0.parent(m));
    }
    assert forall|q: int| 0 <= q < t0.len() implies #[trigger] u.children(q) == (if o == Some(q as usize) {
        s.insert(k, x as usize)
    } else {
        children_without(t0, x, q)
    }) by {
        assert(t1.children(q) == children_without(t0, x, q));
    }
    assert forall|m: int| 0 <= m < t0.len() implies #[trigger] u.siblings(m) == (if m == x || siblings_without(t0, x, m) == s {
        s.insert(k, x as usize)
    } else {
        siblings_without(t0, x, m)
    }) by {
        assert(t1.siblings(m) == siblings_without(t0, x, m));
        if m != x && t1.chains@[m] != s {
            assert(u.chains@[m] == t1.chains@[m]);
        }
    }
    assert forall|m: int| 0 <= m < t0.len() implies #[trigger] u.is_inclusive_descendant(m, x) == t0.is_inclusive_descendant(m, x) by {
        assert(t1.is_inclusive_descendant(m, x) == t0.is_inclusive_descendant(m, x));
    }
}

/// The detached node `x` has no links to siblings.
proof fn lemma_detached_alone(t: Tree, x: int)
    requires
        t.wf(),
        0 <= x < t.len(),
        t.siblings(x) == seq![x as usize],
    ensures
        t.prev(x).is_none(),
        t.next(x).is_none(),
        t.index(x) == 0,
{
    assert(node_ok(t.nodes@, t.chains@, t.pos@, t.depth@, x));
}

impl TreeNodeOps {
    /// Remove a node from its parent by id. The node remains in the tree.
    /// It is possible to assign it to another node in the tree after this operation.
    pub fn remove_from_parent(tree: &mut Tree, id: &NodeId)
        requires
            old(tree).wf(),
        ensures
            final(tree).wf(),
            !old(tree).valid(id.value as int) ==> *final(tree) == *old(tree),
            old(tree).valid(id.value as int) ==> {
                &&& final(tree).nodes@ == detach_nodes(old(tree).nodes@, id.value as int)
                &&& final(tree).chains@ == detach_chains(old(tree).chains@, old(tree).pos@, id.value as int)
                &&& final(tree).pos@ == detach_poss(old(tree).chains@, old(tree).pos@, id.value as int)
            },
            final(tree).depth@ == old(tree).depth@,
            old(tree).valid(id.value as int) ==> detached(*old(tree), *final(tree), id.value as int),
    {
        let ghost t0 = *tree;
        let x = id.value;
        if x >= tree.nodes.len() {
            return;
        }
        let ghost xi = x as int;
        proof {
            lemma_neighbours(t0.nodes@, t0.chains@, t0.pos@, t0.depth@, xi);
            lemma_detach_wf(t0.nodes@, t0.chains@, t0.pos@, t0.depth@, xi);
            assert(node_ok(t0.nodes@, t0.chains@, t0.pos@, t0.depth@, xi));
        }
        let parent_id = tree.nodes[x].parent;
        let prev_sibling_id = tree.nodes[x].prev_sibling;
        let next_sibling_id = tree.nodes[x].next_sibling;

        if parent_id.is_none() && prev_sibling_id.is_none() && next_sibling_id.is_none() {
            proof {
                let n = t0.nodes@;
                let c = t0.chains@;
                let p = t0.pos@;
                assert(c[xi].len() == 1);
                assert forall|m: int| 0 <= m < n.len() implies #[trigger] detach_nodes(n, xi)[m] == n[m] by {
                    assert(detach_nodes(n, xi)[m] == detach_node_at(n, xi, m));
                }
                assert(detach_nodes(n, xi) =~= n);
                assert forall|m: int| 0 <= m < n.len() implies #[trigger] detach_chains(c, p, xi)[m] == c[m] by {
                    if m != xi && c[m] == c[xi] {
                        assert(c[xi][p[m] as int] == m);
                    }
                }
                assert(detach_chains(c, p, xi) =~= c);
                assert forall|m: int| 0 <= m < n.len() implies #[trigger] detach_poss(c, p, xi)[m] == p[m] by {
                    if m != xi && c[m] == c[xi] {
                        assert(c[xi][p[m] as int] == m);
                    }
                }
                assert(detach_poss(c, p, xi) =~= p);
                lemma_detach_model(t0.nodes@, t0.chains@, t0.pos@, t0.depth@, xi);
            }
            return;
        }

        tree.nodes[x].parent = None;
        tree.nodes[x].next_sibling = None;
        tree.nodes[x].prev_sibling = None;

        if let Some(pid) = parent_id {
            let pv = pid.value;
            if pv < tree.nodes.len() {
                if is_id(tree.nodes[pv].first_child, *id) {
                    tree.nodes[pv].first_child = next_sibling_id;
                }
                if is_id(tree.nodes[pv].last_child, *id) {
                    tree.nodes[pv].last_child = prev_sibling_id;
                }
            }
        }
        if let Some(aid) = prev_sibling_id {
            let av = aid.value;
            if av < tree.nodes.len() {
                tree.nodes[av].next_sibling = next_sibling_id;
            }
        }
        if let Some(bid) = next_sibling_id {
            let bv = bid.value;
            if bv < tree.nodes.len() {
                tree.nodes[bv].prev_sibling = prev_sibling_id;
            }
        }
        proof {
            let n = t0.nodes@;
            assert forall|m: int| 0 <= m < n.len() implies #[trigger] tree.nodes@[m] == detach_nodes(n, xi)[m] by {
                assert(detach_nodes(n, xi)[m] == detach_node_at(n, xi, m));
            }
            assert(tree.nodes@ =~= detach_nodes(n, xi));
            tree.chains@ = detach_chains(t0.chains@, t0.pos@, xi);
            tree.pos@ = detach_poss(t0.chains@, t0.pos@, xi);
            lemma_detach_model(t0.nodes@, t0.chains@, t0.pos@, t0.depth@, xi);
        }
    }

    /// Appends a child node by `new_child_id` to a node by `id`. `new_child_id` must exist in the tree.
    pub fn append_child_of(tree: &mut Tree, id: &NodeId, new_child_id: &NodeId)
        requires
            old(tree).wf(),
            old(tree).valid(new_child_id.value as int),
            old(tree).valid(id.value as int) ==> !old(tree).is_inclusive_descendant(id.value as int, new_child_id.value as int),
        ensures
            final(tree).wf(),
            old(tree).valid(id.value as int) ==> moved(
                *old(tree),
                *final(tree),
                new_child_id.value as int,
                Some(id.value),
                children_without(*old(tree), new_child_id.value as int, id.value as int),
                children_without(*old(tree), new_child_id.value as int, id.value as int).len() as int,
            ),
            !old(tree).valid(id.value as int) ==> detached(*old(tree), *final(tree), new_child_id.value as int),
    {
        let ghost t0 = *tree;
        Self::remove_from_parent(tree, new_child_id);
        let ghost t1 = *tree;
        let pv = id.value;
        let cv = new_child_id.value;
        if pv >= tree.nodes.len() {
            return;
        }
        let ghost s = t1.children(pv as int);
        proof {
            lemma_detached_alone(t1, cv as int);
            assert(node_ok(t1.nodes@, t1.chains@, t1.pos@, t1.depth@, pv as int));
            if let Some(f) = fst(t1.nodes@, pv as int) {
                assert(node_ok(t1.nodes@, t1.chains@, t1.pos@, t1.depth@, f as int));
                assert(crate::tree::member_ok(t1.nodes@.len(), t1.chains@, t1.pos@, f as int, 0));
                assert(s == t1.chains@[f as int]);
                assert(s[0] == f);
                assert(f != cv);
            }
            assert(t1.is_inclusive_descendant(pv as int, cv as int) == t0.is_inclusive_descendant(pv as int, cv as int));
            assert(attach_ok(t1.nodes@, t1.chains@, t1.depth@, cv as int, Some(pv), s, s.len() as int));
        }
        let last_child_id = tree.nodes[pv].last_child;
        if last_child_id.is_none() {
            tree.nodes[pv].first_child = Some(*new_child_id);
        }
        tree.nodes[pv].last_child = Some(*new_child_id);
        if let Some(lid) = last_child_id {
            if lid.value < tree.nodes.len() {
                tree.nodes[lid.value].next_sibling = Some(*new_child_id);
            }
        }
        if cv < tree.nodes.len() {
            tree.nodes[cv].prev_sibling = last_child_id;
            tree.nodes[cv].parent = Some(*id);
        }
        proof {
            let n1 = t1.nodes@;
            let k = s.len() as int;
            if s.len() > 0 {
                assert(node_ok(n1, t1.chains@, t1.pos@, t1.depth@, pv as int));
                assert(lst(n1, pv as int) == Some(s.last()));
            }
            assert forall|m: int| 0 <= m < n1.len() implies #[trigger] tree.nodes@[m] == attach_nodes(n1, cv as int, Some(pv), s, k)[m] by {
                assert(attach_nodes(n1, cv as int, Some(pv), s, k)[m] == attach_node_at(n1, cv as int, Some(pv), s, k, m));
            }
            assert(tree.nodes@ =~= attach_nodes(n1, cv as int, Some(pv), s, k));
            tree.chains@ = attach_chains(t1.chains@, cv as int, s, k);
            tree.pos@ = attach_poss(t1.chains@, t1.pos@, cv as int, s, k);
            tree.depth@ = attach_depths(n1, t1.depth@, cv as int, Some(pv));
            lemma_finish_attach(t0, t1, *tree, cv as int, Some(pv), s, k);
        }
    }

    /// Prepend a child node by `new_child_id` to a node by `id`. `new_child_id` must exist in the tree.
    pub fn prepend_child_of(tree: &mut Tree, id: &NodeId, new_child_id: &NodeId)
        requires
            old(tree).wf(),
            old(tree).valid(new_child_id.value as int),
            old(tree).valid(id.value as int) ==> !old(tree).is_inclusive_descendant(id.value as int, new_child_id.value as int),
        ensures
            final(tree).wf(),
            old(tree).valid(id.value as int) ==> moved(
                *old(tree),
                *final(tree),
                new_child_id.value as int,
                Some(id.value),
                children_without(*old(tree), new_child_id.value as int, id.value as int),
                0,
            ),
            !old(tree).valid(id.value as int) ==> detached(*old(tree), *final(tree), new_child_id.value as int),
    {
        let ghost t0 = *tree;
        Self::remove_from_parent(tree, new_child_id);
        let ghost t1 = *tree;
        let pv = id.value;
        let cv = new_child_id.value;
        if pv >= tree.nodes.len() {
            return;
        }
        let ghost s = t1.children(pv as int);
        proof {
            lemma_detached_alone(t1, cv as int);
            assert(node_ok(t1.nodes@, t1.chains@, t1.pos@, t1.depth@, pv as int));
            if let Some(f) = fst(t1.nodes@, pv as int) {
                assert(node_ok(t1.nodes@, t1.chains@, t1.pos@, t1.depth@, f as int));
                assert(crate::tree::member_ok(t1.nodes@.len(), t1.chains@, t1.pos@, f as int, 0));
                assert(s[0] == f);
            }
            assert(t1.is_inclusive_descendant(pv as int, cv as int) == t0.is_inclusive_descendant(pv as int, cv as int));
            assert(attach_ok(t1.nodes@, t1.chains@, t1.depth@, cv as int, Some(pv), s, 0));
        }
        let first_child_id = tree.nodes[pv].first_child;
        if first_child_id.is_none() {
            tree.nodes[pv].last_child = Some(*new_child_id);
        }
        tree.nodes[pv].first_child = Some(*new_child_id);
        if let Some(fid) = first_child_id {
            if fid.value < tree.nodes.len() {
                tree.nodes[fid.value].prev_sibling = Some(*new_child_id);
            }
        }
        if cv < tree.nodes.len() {
            tree.nodes[cv].next_sibling = first_child_id;
            tree.nodes[cv].parent = Some(*id);
            tree.nodes[cv].prev_sibling = None;
        }
        proof {
            let n1 = t1.nodes@;
            assert forall|m: int| 0 <= m < n1.len() implies #[trigger] tree.nodes@[m] == attach_nodes(n1, cv as int, Some(pv), s, 0)[m] by {
                assert(attach_nodes(n1, cv as int, Some(pv), s, 0)[m] == attach_node_at(n1, cv as int, Some(pv), s, 0, m));
            }
            assert(tree.nodes@ =~= attach_nodes(n1, cv as int, Some(pv), s, 0));
            tree.chains@ = attach_chains(t1.chains@, cv as int, s, 0);
            tree.pos@ = attach_poss(t1.chains@, t1.pos@, cv as int, s, 0);
            tree.depth@ = attach_depths(n1, t1.depth@, cv as int, Some(pv));
            lemma_finish_attach(t0, t1, *tree, cv as int, Some(pv), s, 0);
        }
    }

    /// Inserts the node `new_sibling_id` in the tree just before the node `id`.
    pub fn insert_before_of(tree: &mut Tree, id: &NodeId, new_sibling_id: &NodeId)
        requires
            old(tree).wf(),
            old(tree).valid(new_sibling_id.value as int),
            new_sibling_id.value != id.value,
            old(tree).valid(id.value as int) ==> (old(tree).parent(id.value as int) matches Some(q)
                ==> !old(tree).is_inclusive_descendant(q as int, new_sibling_id.value as int)),
        ensures
            final(tree).wf(),
            old(tree).valid(id.value as int) ==> moved(
                *old(tree),
                *final(tree),
                new_sibling_id.value as int,
                old(tree).parent(id.value as int),
                siblings_without(*old(tree), new_sibling_id.value as int, id.value as int),
                index_without(*old(tree), new_sibling_id.value as int, id.value as int),
            ),
            !old(tree).valid(id.value as int) ==> detached(*old(tree), *final(tree), new_sibling_id.value as int),
    {
        let ghost t0 = *tree;
        Self::remove_from_parent(tree, new_sibling_id);
        let ghost t1 = *tree;
        let tv = id.value;
        let xv = new_sibling_id.value;
        if tv >= tree.nodes.len() {
            return;
        }
        let ghost s = t1.siblings(tv as int);
        let ghost k = t1.index(tv as int);
        let ghost o = t1.parent(tv as int);
        proof {
            lemma_detached_alone(t1, xv as int);
            lemma_neighbours(t1.nodes@, t1.chains@, t1.pos@, t1.depth@, tv as int);
            assert(node_ok(t1.nodes@, t1.chains@, t1.pos@, t1.depth@, tv as int));
            assert(s[0] != xv);
            if let Some(q) = o {
                assert(t1.is_inclusive_descendant(q as int, xv as int) == t0.is_inclusive_descendant(q as int, xv as int));
            }
            assert(attach_ok(t1.nodes@, t1.chains@, t1.depth@, xv as int, o, s, k));
            assert(k == index_without(t0, xv as int, tv as int));
        }
        let parent_id = tree.nodes[tv].parent;
        let prev_sibling_id = tree.nodes[tv].prev_sibling;
        tree.nodes[tv].prev_sibling = Some(*new_sibling_id);
        if xv < tree.nodes.len() {
            tree.nodes[xv].parent = parent_id;
            tree.nodes[xv].prev_sibling = prev_sibling_id;
            tree.nodes[xv].next_sibling = Some(*id);
        }
        if let Some(qid) = parent_id {
            if qid.value < tree.nodes.len() {
                if is_id(tree.nodes[qid.value].first_child, *id) {
                    tree.nodes[qid.value].first_child = Some(*new_sibling_id);
                }
            }
        }
        if let Some(aid) = prev_sibling_id {
            if aid.value < tree.nodes.len() {
                tree.nodes[aid.value].next_sibling = Some(*new_sibling_id);
            }
        }
        proof {
            let n1 = t1.nodes@;
            if let Some(q) = o {
                assert(node_ok(n1, t1.chains@, t1.pos@, t1.depth@, q as int));
                assert((fst(n1, q as int) == Some(tv)) == (k == 0));
            }
            assert forall|m: int| 0 <= m < n1.len() implies #[trigger] tree.nodes@[m] == attach_nodes(n1, xv as int, o, s, k)[m] by {
                assert(attach_nodes(n1, xv as int, o, s, k)[m] == attach_node_at(n1, xv as int, o, s, k, m));
            }
            assert(tree.nodes@ =~= attach_nodes(n1, xv as int, o, s, k));
            tree.chains@ = attach_chains(t1.chains@, xv as int, s, k);
            tree.pos@ = attach_poss(t1.chains@, t1.pos@, xv as int, s, k);
            tree.depth@ = attach_depths(n1, t1.depth@, xv as int, o);
            lemma_finish_attach(t0, t1, *tree, xv as int, o, s, k);
        }
    }

    /// Inserts the node `new_sibling_id` in the tree just after the node `id`.
    pub fn insert_after_of(tree: &mut Tree, id: &NodeId, new_sibling_id: &NodeId)
        requires
            old(tree).wf(),
            old(tree).valid(new_sibling_id.value as int),
            new_sibling_id.value != id.value,
            old(tree).valid(id.value as int) ==> (old(tree).parent(id.value as int) matches Some(q)
                ==> !old(tree).is_inclusive_descendant(q as int, new_sibling_id.value as int)),
        ensures
            final(tree).wf(),
            old(tree).valid(id.value as int) ==> moved(
                *old(tree),
                *final(tree),
                new_sibling_id.value as int,
                old(tree).parent(id.value as int),
                siblings_without(*old(tree), new_sibling_id.value as int, id.value as int),
                index_without(*old(tree), new_sibling_id.value as int, id.value as int) + 1,
            ),
            !old(tree).valid(id.value as int) ==> detached(*old(tree), *final(tree), new_sibling_id.value as int),
    {
        let ghost t0 = *tree;
        Self::remove_from_parent(tree, new_sibling_id);
        let ghost t1 = *tree;
        let tv = id.value;
        let xv = new_sibling_id.value;
        if tv >= tree.nodes.len() {
            return;
        }
        let ghost s = t1.siblings(tv as int);
        let ghost k = t1.index(tv as int) + 1;
        let ghost o = t1.parent(tv as int);
        proof {
            lemma_detached_alone(t1, xv as int);
            lemma_neighbours(t1.nodes@, t1.chains@, t1.pos@, t1.depth@, tv as int);
            assert(node_ok(t1.nodes@, t1.chains@, t1.pos@, t1.depth@, tv as int));
            assert(s[0] != xv);
            if let Some(q) = o {
                assert(t1.is_inclusive_descendant(q as int, xv as int) == t0.is_inclusive_descendant(q as int, xv as int));
            }
            assert(attach_ok(t1.nodes@, t1.chains@, t1.depth@, xv as int, o, s, k));
            assert(k == index_without(t0, xv as int, tv as int) + 1);
        }
        let parent_id = tree.nodes[tv].parent;
        let next_sibling_id = tree.nodes[tv].next_sibling;
        tree.nodes[tv].next_sibling = Some(*new_sibling_id);
        if xv < tree.nodes.len() {
            tree.nodes[xv].parent = parent_id;
            tree.nodes[xv].prev_sibling = Some(*id);
            tree.nodes[xv].next_sibling = next_sibling_id;
        }
        if let Some(qid) = parent_id {
            if qid.value < tree.nodes.len() {
                if is_id(tree.nodes[qid.value].last_child, *id) {
                    tree.nodes[qid.value].last_child = Some(*new_sibling_id);
                }
            }
        }
        if let Some(bid) = next_sibling_id {
            if bid.value < tree.nodes.len() {
                tree.nodes[bid.value].prev_sibling = Some(*new_sibling_id);
            }
        }
        proof {
            let n1 = t1.nodes@;
            if let Some(q) = o {
                assert(node_ok(n1, t1.chains@, t1.pos@, t1.depth@, q as int));
                assert((lst(n1, q as int) == Some(tv)) == (k == s.len()));
            }
            assert forall|m: int| 0 <= m < n1.len() implies #[trigger] tree.nodes@[m] == attach_nodes(n1, xv as int, o, s, k)[m] by {
                assert(attach_nodes(n1, xv as int, o, s, k)[m] == attach_node_at(n1, xv as int, o, s, k, m));
            }
            assert(tree.nodes@ =~= attach_nodes(n1, xv as int, o, s, k));
            tree.chains@ = attach_chains(t1.chains@, xv as int, s, k);
            tree.pos@ = attach_poss(t1.chains@, t1.pos@, xv as int, s, k);
            tree.depth@ = attach_depths(n1, t1.depth@, xv as int, o);
            lemma_finish_attach(t0, t1, *tree, xv as int, o, s, k);
        }
    }

    /// Changes the parent of the children of a node: they all go, in order, to the end of the
    /// children of `new_parent_id`, or, when it is `None`, they stay together as a chain of
    /// siblings without a parent. Giving them to the node itself changes nothing.
    pub fn reparent_children_of(tree: &mut Tree, id: &NodeId, new_parent_id: Option<NodeId>)
        requires
            old(tree).wf(),
            new_parent_id matches Some(q) ==> {
                &&& old(tree).valid(q.value as int)
                &&& (q.value != id.value && old(tree).valid(id.value as int)) ==> !old(tree).is_inclusive_descendant(q.value as int, id.value as int)
            },
        ensures
            final(tree).wf(),
            final(tree).same_data(old(tree)),
            !old(tree).valid(id.value as int) ==> *final(tree) == *old(tree),
            old(tree).valid(id.value as int) ==> {
                &&& forall|m: int| 0 <= m < old(tree).len() ==> #[trigger] final(tree).parent(m) == (if old(tree).parent(m) == Some(id.value) {
                    crate::node::opt_idx(new_parent_id)
                } else {
                    old(tree).parent(m)
                })
                &&& forall|r: int| 0 <= r < old(tree).len() ==> #[trigger] final(tree).children(r) == (if r == id.value {
                    if crate::node::opt_idx(new_parent_id) == Some(id.value) { old(tree).children(r) } else { Seq::<usize>::empty() }
                } else if crate::node::opt_idx(new_parent_id) == Some(r as usize) {
                    old(tree).children(r) + old(tree).children(id.value as int)
                } else {
                    old(tree).children(r)
                })
            },
            old(tree).valid(id.value as int) && (new_parent_id is None || crate::node::opt_idx(new_parent_id) == Some(id.value)) ==> {
                &&& forall|m: int| 0 <= m < old(tree).len() ==> #[trigger] final(tree).siblings(m) == old(tree).siblings(m)
                &&& forall|m: int| 0 <= m < old(tree).len() ==> #[trigger] final(tree).index(m) == old(tree).index(m)
            },
    {
        if id.value >= tree.nodes.len() {
            return;
        }
        if let Some(q) = new_parent_id {
            if q.value != id.value {
                Self::give_children_to(tree, id, &q);
                return;
            }
        }
        let ghost t0 = *tree;
        Self::move_children_of(tree, id, new_parent_id);
        proof {
            assert forall|r: int| 0 <= r < t0.len() implies #[trigger] tree.children(r) == (if r == id.value {
                if crate::node::opt_idx(new_parent_id) == Some(id.value) { t0.children(r) } else { Seq::<usize>::empty() }
            } else if crate::node::opt_idx(new_parent_id) == Some(r as usize) {
                t0.children(r) + t0.children(id.value as int)
            } else {
                t0.children(r)
            }) by {
                if new_parent_id == Some(NodeId { value: r as usize }) {
                    assert(r == id.value);
                }
            }
        }
    }

    /// Moves all the children of `node`, in order, to the end of the children of `new_parent`.
    fn give_children_to(tree: &mut Tree, node: &NodeId, new_parent: &NodeId)
        requires
            old(tree).wf(),
            old(tree).valid(new_parent.value as int),
            old(tree).valid(node.value as int),
            new_parent.value != node.value,
            !old(tree).is_inclusive_descendant(new_parent.value as int, node.value as int),
        ensures
            final(tree).wf(),
            final(tree).same_data(old(tree)),
            forall|m: int| 0 <= m < old(tree).len() ==> #[trigger] final(tree).parent(m) == (
                if old(tree).parent(m) == Some(node.value) { Some(new_parent.value) } else { old(tree).parent(m) }),
            forall|r: int| 0 <= r < old(tree).len() ==> #[trigger] final(tree).children(r) == (if r == new_parent.value {
                old(tree).children(new_parent.value as int) + old(tree).children(node.value as int)
            } else if r == node.value {
                Seq::<usize>::empty()
            } else {
                old(tree).children(r)
            }),
    {
        let n0 = tree.nodes.len();
        let ghost t0 = *tree;
        let x = node.value;
        proof {
            lemma_children_are_childs(t0.nodes@, t0.chains@, t0.pos@, t0.depth@, x as int);
            assert(node_ok(t0.nodes@, t0.chains@, t0.pos@, t0.depth@, x as int));
        }
        match tree.nodes[x].first_child {
            None => {
                proof {
                    assert(t0.children(x as int) == Seq::<usize>::empty());
                    assert(t0.children(new_parent.value as int) + t0.children(x as int) =~= t0.children(new_parent.value as int));
                    assert forall|m: int| 0 <= m < t0.len() implies t0.parent(m) != Some(x) by {
                        assert(!t0.children(x as int).contains(m as usize));
                    }
                }
            },
            Some(f) => {
                let ghost ms = chain_from(t0, f.value as int);
                proof {
                    assert(node_ok(t0.nodes@, t0.chains@, t0.pos@, t0.depth@, f.value as int));
                    lemma_chain_members(t0, f.value as int);
                    assert(t0.index(f.value as int) == 0);
                    assert(ms =~= t0.children(x as int));
                    assert forall|j: int| 0 <= j < ms.len() implies
                        !t0.is_inclusive_descendant(new_parent.value as int, #[trigger] ms[j] as int) by {
                        if t0.is_inclusive_descendant(new_parent.value as int, ms[j] as int) {
                            lemma_desc_up(t0, new_parent.value as int, ms[j] as int, x as int);
                        }
                    }
                    assert(chain_before(t0, f.value as int) =~= Seq::<usize>::empty());
                }
                Self::append_children_of(tree, new_parent, &f);
                proof {
                    let u = *tree;
                    assert forall|m: int| 0 <= m < t0.len() implies #[trigger] u.parent(m) == (
                        if t0.parent(m) == Some(x) { Some(new_parent.value) } else { t0.parent(m) }) by {
                        assert(ms.contains(m as usize) == (t0.parent(m) == Some(x)));
                    }
                    assert forall|r: int| 0 <= r < t0.len() implies #[trigger] u.children(r) == (if r == new_parent.value {
                        t0.children(new_parent.value as int) + t0.children(x as int)
                    } else if r == x {
                        Seq::<usize>::empty()
                    } else {
                        t0.children(r)
                    }) by {
                        assert(r <= n0);
                        if r == x {
                            assert(Seq::<usize>::empty() + Seq::<usize>::empty() =~= Seq::<usize>::empty());
                        } else if r != new_parent.value {
                            assert(t0.children(r) + Seq::<usize>::empty() =~= t0.children(r));
                        }
                    }
                }
            },
        }
    }

    /// Moves the children of a node, in order, to `new_parent_id`, which has none of its own,
    /// or leaves them together as a chain of siblings without a parent.
    fn move_children_of(tree: &mut Tree, id: &NodeId, new_parent_id: Option<NodeId>)
        requires
            old(tree).wf(),
            new_parent_id matches Some(q) ==> {
                &&& old(tree).valid(q.value as int)
                &&& q.value != id.value ==> {
                    &&& old(tree).children(q.value as int) == Seq::<usize>::empty()
                    &&& (old(tree).valid(id.value as int) ==> !old(tree).is_inclusive_descendant(q.value as int, id.value as int))
                }
            },
        ensures
            final(tree).wf(),
            final(tree).same_data(old(tree)),
            !old(tree).valid(id.value as int) ==> *final(tree) == *old(tree),
            old(tree).valid(id.value as int) ==> {
                &&& forall|m: int| 0 <= m < old(tree).len() ==> #[trigger] final(tree).parent(m) == (if old(tree).parent(m) == Some(id.value) {
                    crate::node::opt_idx(new_parent_id)
                } else {
                    old(tree).parent(m)
                })
                &&& forall|r: int| 0 <= r < old(tree).len() ==> #[trigger] final(tree).children(r) == (if new_parent_id == Some(NodeId { value: r as usize }) {
                    old(tree).children(id.value as int)
                } else if r == id.value {
                    Seq::<usize>::empty()
                } else {
                    old(tree).children(r)
                })
                &&& forall|m: int| 0 <= m < old(tree).len() ==> #[trigger] final(tree).siblings(m) == old(tree).siblings(m)
                &&& forall|m: int| 0 <= m < old(tree).len() ==> #[trigger] final(tree).index(m) == old(tree).index(m)
            },
    {
        let ghost t0 = *tree;
        let x = id.value;
        if x >= tree.nodes.len() {
            return;
        }
        let ghost n0 = t0.nodes@;
        let ghost c0 = t0.chains@;
        let ghost o = crate::node::opt_idx(new_parent_id);
        let ghost s = children_of(n0, c0, x as int);
        proof {
            lemma_children_are_childs(n0, c0, t0.pos@, t0.depth@, x as int);
            assert(node_ok(n0, c0, t0.pos@, t0.depth@, x as int));
            if let Some(q) = new_parent_id {
                assert(node_ok(n0, c0, t0.pos@, t0.depth@, q.value as int));
            }
        }
        let first_child_id = tree.nodes[x].first_child;
        let last_child_id = tree.nodes[x].last_child;
        tree.nodes[x].first_child = None;
        tree.nodes[x].last_child = None;
        if let Some(npid) = new_parent_id {
            if npid.value < tree.nodes.len() {
                tree.nodes[npid.value].first_child = first_child_id;
                tree.nodes[npid.value].last_child = last_child_id;
            }
        }
        let mut next_child_id = first_child_id;
        let ghost mut k: int = 0;
        proof {
            assert forall|m: int| 0 <= m < n0.len() implies #[trigger] tree.nodes@[m] == reparent_prefix_at(n0, c0, x as int, o, 0, m) by {}
            if let Some(f) = fst(n0, x as int) {
                assert(node_ok(n0, c0, t0.pos@, t0.depth@, f as int));
                assert(crate::tree::member_ok(n0.len(), c0, t0.pos@, f as int, 0));
                assert(s[0] == f);
            }
        }
        while next_child_id.is_some()
            invariant
                0 <= k <= s.len(),
                tree.nodes@.len() == n0.len(),
                tree.chains@ == c0,
                tree.pos@ == t0.pos@,
                tree.depth@ == t0.depth@,
                wf_parts(n0, c0, t0.pos@, t0.depth@),
                0 <= x < n0.len(),
                o == crate::node::opt_idx(new_parent_id),
                s == children_of(n0, c0, x as int),
                forall|j: int| #![trigger s[j]] 0 <= j < s.len() ==> {
                    &&& s[j] < n0.len()
                    &&& par(n0, s[j] as int) == Some(x)
                    &&& c0[s[j] as int] == s
                    &&& t0.pos@[s[j] as int] == j
                },
                next_child_id == crate::attach::to_id(crate::attach::at(s, k)),
                forall|m: int| 0 <= m < n0.len() ==> #[trigger] tree.nodes@[m] == reparent_prefix_at(n0, c0, x as int, o, k, m),
            decreases s.len() - k,
        {
            let child_id = next_child_id.unwrap();
            let cv = child_id.value;
            proof {
                assert(cv == s[k]);
                assert(node_ok(n0, c0, t0.pos@, t0.depth@, cv as int));
            }
            if cv < tree.nodes.len() {
                tree.nodes[cv].parent = new_parent_id;
                next_child_id = tree.nodes[cv].next_sibling;
                proof {
                    let ghost k1 = k + 1;
                    assert(s.take(k1).contains(cv)) by {
                        assert(s.take(k1)[k] == cv);
                    }
                    assert forall|m: int| 0 <= m < n0.len() implies #[trigger] tree.nodes@[m] == reparent_prefix_at(n0, c0, x as int, o, k1, m) by {
                        if m != cv {
                            if s.take(k1).contains(m as usize) {
                                let j = choose|j: int| 0 <= j < k1 && s.take(k1)[j] == m as usize;
                                assert(s.take(k)[j] == m);
                            }
                            if s.take(k).contains(m as usize) {
                                let j = choose|j: int| 0 <= j < k && s.take(k)[j] == m as usize;
                                assert(s.take(k1)[j] == m);
                            }
                        } else {
                            assert(!s.take(k).contains(cv)) by {
                                if s.take(k).contains(cv) {
                                    let j = choose|j: int| 0 <= j < k && s.take(k)[j] == cv;
                                    assert(s[j] == cv);
                                }
                            }
                        }
                    }
                    k = k1;
                    if k < s.len() {
                        assert(s[k] < n0.len());
                    }
                }
            }
        }
        proof {
            assert(k == s.len());
            assert forall|m: int| 0 <= m < n0.len() implies #[trigger] tree.nodes@[m] == reparent_nodes(n0, c0, x as int, o)[m] by {
                assert(reparent_nodes(n0, c0, x as int, o)[m] == reparent_node_at(n0, c0, x as int, o, m));
            }
            assert(tree.nodes@ =~= reparent_nodes(n0, c0, x as int, o));
            if o == Some(x) {
                lemma_reparent_self(n0, c0, t0.pos@, t0.depth@, x as int);
                assert(tree.nodes@ == n0);
            } else {
                if let Some(q) = o {
                    assert(fst(n0, q as int).is_none()) by {
                        assert(node_ok(n0, c0, t0.pos@, t0.depth@, q as int));
                        if let Some(f) = fst(n0, q as int) {
                            assert(crate::tree::member_ok(n0.len(), c0, t0.pos@, f as int, 0));
                            assert(node_ok(n0, c0, t0.pos@, t0.depth@, f as int));
                        }
                    }
                }
                assert(reparent_ok(n0, t0.depth@, x as int, o));
                lemma_reparent_wf(n0, c0, t0.pos@, t0.depth@, x as int, o);
                lemma_reparent_model(n0, c0, t0.pos@, t0.depth@, x as int, o);
                tree.depth@ = reparent_depths(n0, t0.depth@, x as int, o);
            }
        }
    }

    /// Detaches the children of a node.
    pub fn remove_children_of(tree: &mut Tree, id: &NodeId)
        requires
            old(tree).wf(),
        ensures
            final(tree).wf(),
            final(tree).same_data(old(tree)),
            !old(tree).valid(id.value as int) ==> *final(tree) == *old(tree),
            old(tree).valid(id.value as int) ==> {
                &&& forall|m: int| 0 <= m < old(tree).len() ==> #[trigger] final(tree).parent(m) == (if old(tree).parent(m) == Some(id.value) {
                    None
                } else {
                    old(tree).parent(m)
                })
                &&& forall|r: int| 0 <= r < old(tree).len() ==> #[trigger] final(tree).children(r) == (if r == id.value {
                    Seq::<usize>::empty()
                } else {
                    old(tree).children(r)
                })
                &&& forall|m: int| 0 <= m < old(tree).len() ==> #[trigger] final(tree).siblings(m) == old(tree).siblings(m)
            },
    {
        Self::move_children_of(tree, id, None)
    }
}

/// A node below a child of `x` lies below `x` too.
proof fn lemma_desc_up(t: Tree, y: int, m: int, x: int)
    requires
        t.wf(),
        0 <= y < t.len(),
        0 <= m < t.len(),
        0 <= x < t.len(),
        t.len() <= usize::MAX,
        t.parent(m) == Some(x as usize),
        t.is_inclusive_descendant(y, m),
    ensures
        t.is_inclusive_descendant(y, x),
    decreases t.depth@[y],
{
    assert(node_ok(t.nodes@, t.chains@, t.pos@, t.depth@, y));
    assert(node_ok(t.nodes@, t.chains@, t.pos@, t.depth@, m));
    assert(t.depth@[x] < t.depth@[m]);
    if y == m {
        assert(crate::tree::is_desc(t.nodes@, t.depth@, x, x));
        assert(crate::tree::is_desc(t.nodes@, t.depth@, m, x));
    } else if y != x {
        if let Some(q) = t.parent(y) {
            assert(t.depth@[q as int] < t.depth@[y]);
            assert(crate::tree::is_desc(t.nodes@, t.depth@, q as int, m));
            lemma_desc_up(t, q as int, m, x);
            assert(crate::tree::is_desc(t.nodes@, t.depth@, y, x));
        }
    }
}

} // verus!
