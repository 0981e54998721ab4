//! Adding the nodes of another tree to a tree, and splicing parts of it in.
use vstd::prelude::*;
use crate::node::{NodeId, TreeNode, shift_id};
use crate::ops::{TreeNodeOps, moved, children_without, siblings_without, index_without};
use crate::detach::lemma_neighbours;
use crate::tree::{Tree, wf_parts, node_ok, member_ok, par, prv, nxt, fst, lst, is_desc};

verus! {

/// The node with every id it holds moved up by `off`.
pub open spec fn shifted(nd: TreeNode, off: usize) -> TreeNode {
    TreeNode {
        id: NodeId { value: (nd.id.value + off) as usize },
        parent: shift_id(nd.parent, off),
        prev_sibling: shift_id(nd.prev_sibling, off),
        next_sibling: shift_id(nd.next_sibling, off),
        first_child: shift_id(nd.first_child, off),
        last_child: shift_id(nd.last_child, off),
        data: nd.data,
    }
}

pub open spec fn shifted_nodes(n: Seq<TreeNode>, off: usize) -> Seq<TreeNode> {
    n.map_values(|nd: TreeNode| shifted(nd, off))
}

/// The indices of `s` moved up by `off`.
pub open spec fn shift_seq(s: Seq<usize>, off: usize) -> Seq<usize> {
    s.map_values(|u: usize| (u + off) as usize)
}

pub open spec fn shifted_chains(c: Seq<Seq<usize>>, off: usize) -> Seq<Seq<usize>> {
    c.map_values(|s: Seq<usize>| shift_seq(s, off))
}

/// The arena and model of `t` followed by those of `o`, whose ids move up by the size of `t`.
pub open spec fn merged(t: Tree, o: Tree, u: Tree) -> bool {
    let off = t.nodes@.len() as usize;
    &&& u.nodes@ == t.nodes@ + shifted_nodes(o.nodes@, off)
    &&& u.chains@ == t.chains@ + shifted_chains(o.chains@, off)
    &&& u.pos@ == t.pos@ + o.pos@
    &&& u.depth@ == t.depth@ + o.depth@
}

proof fn lemma_merged_old(t: Tree, o: Tree, u: Tree, i: int)
    requires
        t.wf(),
        o.wf(),
        t.len() + o.len() <= usize::MAX,
        merged(t, o, u),
        0 <= i < t.len(),
    ensures
        node_ok(u.nodes@, u.chains@, u.pos@, u.depth@, i),
        forall|j: int| #[trigger] member_ok(u.nodes@.len(), u.chains@, u.pos@, i, j),
{
    let (n, c, p, d) = (t.nodes@, t.chains@, t.pos@, t.depth@);
    let (n2, c2, p2, d2) = (u.nodes@, u.chains@, u.pos@, u.depth@);
    assert(node_ok(n, c, p, d, i));
    assert(n2[i] == n[i]);
    let s = c[i];
    assert(c2[i] == s);
    assert(member_ok(n.len(), c, p, i, 0));
    assert(n2[s[0] as int] == n[s[0] as int]);
    if let Some(q) = par(n, i) {
        assert(n2[q as int] == n[q as int]);
        assert(member_ok(n.len(), c, p, i, s.len() - 1));
    }
    if let Some(f) = fst(n, i) {
        assert(n2[f as int] == n[f as int]);
    }
    if let Some(l) = lst(n, i) {
        assert(n2[l as int] == n[l as int]);
    }
    assert forall|j: int| #[trigger] member_ok(n2.len(), c2, p2, i, j) by {
        assert(member_ok(n.len(), c, p, i, j));
        if 0 <= j < s.len() {
            assert(c2[s[j] as int] == c[s[j] as int]);
        }
    }
}

proof fn lemma_merged_new(t: Tree, o: Tree, u: Tree, j: int)
    requires
        t.wf(),
        o.wf(),
        t.len() + o.len() <= usize::MAX,
        merged(t, o, u),
        0 <= j < o.len(),
    ensures
        node_ok(u.nodes@, u.chains@, u.pos@, u.depth@, t.len() + j),
        forall|k: int| #[trigger] member_ok(u.nodes@.len(), u.chains@, u.pos@, t.len() + j, k),
{
    let off = t.len() as usize;
    let i = t.len() + j;
    let (n, c, p, d) = (o.nodes@, o.chains@, o.pos@, o.depth@);
    let (n2, c2, p2, d2) = (u.nodes@, u.chains@, u.pos@, u.depth@);
    assert(node_ok(n, c, p, d, j));
    assert(n2[i] == shifted(n[j], off));
    let s = c[j];
    let s2 = shift_seq(s, off);
    assert(c2[i] == s2);
    assert(p2[i] == p[j]);
    assert(d2[i] == d[j]);
    assert(member_ok(n.len(), c, p, j, 0));
    assert(n2[s2[0] as int] == shifted(n[s[0] as int], off));
    let k = p[j] as int;
    if k > 0 {
        assert(member_ok(n.len(), c, p, j, k - 1));
    }
    if k + 1 < s.len() {
        assert(member_ok(n.len(), c, p, j, k + 1));
    }
    if let Some(q) = par(n, j) {
        assert(n2[off + q] == shifted(n[q as int], off));
        assert(node_ok(n, c, p, d, q as int));
        assert(d2[off + q] == d[q as int]);
        assert(member_ok(n.len(), c, p, j, s.len() - 1));
        assert(s2.last() == (s.last() + off) as usize);
    }
    if let Some(f) = fst(n, j) {
        assert(n2[off + f] == shifted(n[f as int], off));
        assert(p2[off + f] == p[f as int]);
    }
    if let Some(l) = lst(n, j) {
        assert(n2[off + l] == shifted(n[l as int], off));
    }
    assert forall|kk: int| #[trigger] member_ok(n2.len(), c2, p2, i, kk) by {
        assert(member_ok(n.len(), c, p, j, kk));
        if 0 <= kk < s.len() {
            assert(c2[off + s[kk]] == shift_seq(c[s[kk] as int], off));
            assert(p2[off + s[kk]] == p[s[kk] as int]);
        }
    }
}

/// Putting the arena of a tree after another's keeps the structure of both.
pub proof fn lemma_merged_wf(t: Tree, o: Tree, u: Tree)
    requires
        t.wf(),
        o.wf(),
        t.len() + o.len() <= usize::MAX,
        merged(t, o, u),
    ensures
        u.wf(),
{
    let (n2, c2, p2, d2) = (u.nodes@, u.chains@, u.pos@, u.depth@);
    assert forall|i: int| 0 <= i < n2.len() implies #[trigger] node_ok(n2, c2, p2, d2, i) by {
        if i < t.len() {
            lemma_merged_old(t, o, u, i);
        } else {
            lemma_merged_new(t, o, u, i - t.len());
        }
    }
    assert forall|i: int, k: int| 0 <= i < n2.len() implies #[trigger] member_ok(n2.len(), c2, p2, i, k) by {
        if i < t.len() {
            lemma_merged_old(t, o, u, i);
        } else {
            lemma_merged_new(t, o, u, i - t.len());
        }
    }
}

/// What merging keeps: the old nodes and their model as they were, and the new ones
/// as they were in the other tree, moved up by the size of the first.
pub proof fn lemma_merged_model(t: Tree, o: Tree, u: Tree)
    requires
        t.wf(),
        o.wf(),
        t.len() + o.len() <= usize::MAX,
        merged(t, o, u),
    ensures
        u.len() == t.len() + o.len(),
        forall|i: int| 0 <= i < t.len() ==> #[trigger] u.data(i) == t.data(i),
        forall|i: int| 0 <= i < t.len() ==> #[trigger] u.parent(i) == t.parent(i),
        forall|i: int| 0 <= i < t.len() ==> #[trigger] u.children(i) == t.children(i),
        forall|i: int| 0 <= i < t.len() ==> #[trigger] u.siblings(i) == t.siblings(i),
        forall|j: int| 0 <= j < o.len() ==> #[trigger] u.data(t.len() + j) == o.data(j),
        forall|j: int| 0 <= j < o.len() ==> #[trigger] u.parent(t.len() + j) == (match o.parent(j) {
            Some(q) => Some((q + t.len()) as usize),
            None => None,
        }),
        forall|j: int| 0 <= j < o.len() ==> #[trigger] u.children(t.len() + j) == shift_seq(o.children(j), t.len() as usize),
        forall|m: int, a: int| 0 <= m < t.len() ==> #[trigger] u.is_inclusive_descendant(m, a) == t.is_inclusive_descendant(m, a),
{
    let off = t.len() as usize;
    assert forall|i: int| 0 <= i < t.len() implies #[trigger] u.children(i) == t.children(i) by {
        assert(node_ok(t.nodes@, t.chains@, t.pos@, t.depth@, i));
    }
    assert forall|j: int| 0 <= j < o.len() implies #[trigger] u.children(t.len() + j) == shift_seq(o.children(j), off) by {
        assert(node_ok(o.nodes@, o.chains@, o.pos@, o.depth@, j));
        assert(u.nodes@[t.len() + j] == shifted(o.nodes@[j], off));
        if let Some(f) = fst(o.nodes@, j) {
            assert(u.chains@[off + f] == shift_seq(o.chains@[f as int], off));
        } else {
            assert(shift_seq(Seq::<usize>::empty(), off) =~= Seq::<usize>::empty());
        }
    }
    assert forall|m: int, a: int| 0 <= m < t.len() implies #[trigger] u.is_inclusive_descendant(m, a) == t.is_inclusive_descendant(m, a) by {
        crate::tree::lemma_is_desc_prefix(t, u, m, a);
    }
}

impl Tree {
    /// Adds all the nodes of another tree after this tree's nodes, their ids moved up
    /// by this tree's size, which is returned. Nothing of the other tree is attached
    /// to this one yet.
    pub fn merge(&mut self, other: Tree) -> (off: usize)
        requires
            old(self).wf(),
            other.wf(),
            old(self).len() + other.len() <= usize::MAX,
        ensures
            final(self).wf(),
            off == old(self).len(),
            merged(*old(self), other, *final(self)),
    {
        let ghost t0 = *self;
        let off = self.nodes.len();
        let ghost o = other;
        let mut on = other.nodes;
        let m = on.len();
        let mut rev: Vec<TreeNode> = Vec::new();
        while on.len() > 0
            invariant
                m == o.nodes@.len(),
                on@ == o.nodes@.take(on@.len() as int),
                on@.len() + rev@.len() == m,
                forall|j: int| 0 <= j < rev@.len() ==> #[trigger] rev@[j] == o.nodes@[m - 1 - j],
            decreases on@.len(),
        {
            let nd = on.pop().unwrap();
            rev.push(nd);
            proof {
                assert(on@ =~= o.nodes@.take(on@.len() as int));
            }
        }
        while rev.len() > 0
            invariant
                o.wf(),
                off == t0.len(),
                t0.len() + o.len() <= usize::MAX,
                m == o.nodes@.len(),
                rev@.len() <= m,
                forall|j: int| 0 <= j < rev@.len() ==> #[trigger] rev@[j] == o.nodes@[m - 1 - j],
                self.nodes@ == t0.nodes@ + shifted_nodes(o.nodes@.take(m - rev@.len()), off),
            decreases rev@.len(),
        {
            let ghost k = m - rev@.len();
            let mut nd = rev.pop().unwrap();
            proof {
                assert(nd == o.nodes@[k]);
                assert(node_ok(o.nodes@, o.chains@, o.pos@, o.depth@, k));
            }
            nd.adjust(off);
            self.nodes.push(nd);
            proof {
                assert(o.nodes@.take(k + 1) =~= o.nodes@.take(k).push(o.nodes@[k]));
                assert(self.nodes@ =~= t0.nodes@ + shifted_nodes(o.nodes@.take(k + 1), off));
            }
        }
        proof {
            assert(o.nodes@.take(m as int) =~= o.nodes@);
        }
        proof {
            self.chains@ = t0.chains@ + shifted_chains(o.chains@, off);
            self.pos@ = t0.pos@ + o.pos@;
            self.depth@ = t0.depth@ + o.depth@;
            lemma_merged_wf(t0, o, *self);
        }
        off
    }
}

// ---------------------------------------------------------------------------
// Splicing in the content of a parsed fragment
// ---------------------------------------------------------------------------

/// The node of a parsed fragment whose children are its content: the document root
/// holds the `html` element, which holds them.
pub const TRUE_ROOT_ID: usize = 2;

/// No node below `bound` has an ancestor at or above `bound`.
pub open spec fn closed_below(t: Tree, bound: int) -> bool {
    forall|m: int| 0 <= m < bound ==> (#[trigger] t.parent(m) matches Some(q) ==> q < bound)
}

pub proof fn lemma_closed_not_desc(t: Tree, bound: int, m: int, a: int)
    requires
        t.wf(),
        closed_below(t, bound),
        0 <= m < bound,
        bound <= a,
    ensures
        !t.is_inclusive_descendant(m, a),
    decreases t.depth@[m],
{
    if let Some(q) = t.parent(m) {
        if t.depth@[q as int] < t.depth@[m] {
            lemma_closed_not_desc(t, bound, q as int, a);
        }
    }
}

/// A node that was just created has no descendant among the older nodes.
pub proof fn lemma_closed_not_desc_pub(t: Tree, m: int, a: int)
    requires
        t.wf(),
        0 <= m < t.len(),
        t.len() <= a,
    ensures
        !t.is_inclusive_descendant(m, a),
{
    assert forall|k: int| 0 <= k < t.len() implies (#[trigger] t.parent(k) matches Some(q) ==> q < t.len()) by {
        assert(node_ok(t.nodes@, t.chains@, t.pos@, t.depth@, k));
    }
    lemma_closed_not_desc(t, t.len() as int, m, a);
}

/// The first child of `r` is the first of its children, at index 0 of its chain.
proof fn lemma_first_child(t: Tree, r: int)
    requires
        t.wf(),
        0 <= r < t.len(),
    ensures
        t.first(r) is None <==> t.children(r).len() == 0,
        t.first(r) matches Some(f) ==> {
            &&& f == t.children(r)[0]
            &&& f < t.len()
            &&& t.index(f as int) == 0
            &&& t.parent(f as int) == Some(r as usize)
            &&& t.siblings(f as int) == t.children(r)
        },
{
    let n = t.nodes@;
    assert(node_ok(n, t.chains@, t.pos@, t.depth@, r));
    if let Some(f) = fst(n, r) {
        assert(node_ok(n, t.chains@, t.pos@, t.depth@, f as int));
        assert(member_ok(n.len(), t.chains@, t.pos@, f as int, 0));
    }
}

impl Tree {
    /// Appends the children of node [`TRUE_ROOT_ID`] of another tree (the content of a
    /// parsed fragment) to node `id`, after its own children and in their order. The
    /// other tree's nodes all join this tree's arena, their ids moved up by its size.
    /// Nothing changes when `id` is not in this tree or the other tree has no such node.
    ///
    /// A node of the other tree whose parent is node 0 or 1 of that tree (in a parsed
    /// fragment, node [`TRUE_ROOT_ID`] itself) keeps that parent, moved up like every
    /// other id, so that the arena stays well formed; it is not cut loose with no
    /// parent while its old parent still lists it as a child.
    pub fn append_children_from_another_tree(&mut self, id: &NodeId, tree: Tree)
        requires
            old(self).wf(),
            tree.wf(),
            old(self).len() > 0,
            tree.len() > 0,
            old(self).len() + tree.len() <= usize::MAX,
        ensures
            final(self).wf(),
            !(old(self).valid(id.value as int) && tree.len() > TRUE_ROOT_ID) ==> *final(self) == *old(self),
            old(self).valid(id.value as int) && tree.len() > TRUE_ROOT_ID ==> {
                let off = old(self).len() as usize;
                let cs = shift_seq(tree.children(TRUE_ROOT_ID as int), off);
                &&& final(self).len() == old(self).len() + tree.len()
                &&& final(self).children(id.value as int) == old(self).children(id.value as int) + cs
                &&& final(self).children(off + TRUE_ROOT_ID) == Seq::<usize>::empty()
                &&& forall|q: int| 0 <= q < old(self).len() && q != id.value ==> #[trigger] final(self).children(q) == old(self).children(q)
                &&& forall|m: int| 0 <= m < old(self).len() ==> #[trigger] final(self).parent(m) == old(self).parent(m)
                &&& forall|k: int| 0 <= k < cs.len() ==> #[trigger] final(self).parent(cs[k] as int) == Some(id.value)
                &&& forall|i: int| 0 <= i < old(self).len() ==> #[trigger] final(self).data(i) == old(self).data(i)
                &&& forall|j: int| 0 <= j < tree.len() ==> #[trigger] final(self).data(off + j) == tree.data(j)
                &&& forall|j: int| 0 <= j < tree.len() && j != TRUE_ROOT_ID ==> #[trigger] final(self).children(off + j) == shift_seq(tree.children(j), off)
                &&& forall|j: int| 0 <= j < tree.len() && tree.parent(j) != Some(TRUE_ROOT_ID) ==> #[trigger] final(self).parent(off + j) == (match tree.parent(j) {
                    Some(q) => Some((q + off) as usize),
                    None => None,
                })
            },
    {
        if id.value >= self.nodes.len() || tree.nodes.len() <= TRUE_ROOT_ID {
            return;
        }
        let ghost t0 = *self;
        let ghost o = tree;
        let x = id.value;
        let off = self.merge(tree);
        let ghost t1 = *self;
        let r = off + TRUE_ROOT_ID;
        let ghost cs = shift_seq(o.children(TRUE_ROOT_ID as int), off);
        proof {
            lemma_merged_model(t0, o, t1);
            assert(t1.children(r as int) == cs);
            assert forall|m: int| 0 <= m < off implies (#[trigger] t1.parent(m) matches Some(q) ==> q < off) by {
                assert(node_ok(t0.nodes@, t0.chains@, t0.pos@, t0.depth@, m));
            }
            assert forall|k: int| 0 <= k < cs.len() implies off <= #[trigger] cs[k] < t1.len() by {
                lemma_neighbours(o.nodes@, o.chains@, o.pos@, o.depth@, TRUE_ROOT_ID as int);
                crate::reparent::lemma_children_are_childs(o.nodes@, o.chains@, o.pos@, o.depth@, TRUE_ROOT_ID as int);
            }
            crate::reparent::lemma_children_are_childs(t1.nodes@, t1.chains@, t1.pos@, t1.depth@, r as int);
        }
        let ghost mut k: int = 0;
        loop
            invariant
                self.wf(),
                t1.wf(),
                self.same_data(&t1),
                off == t0.len(),
                x < off,
                x == id.value,
                r == off + TRUE_ROOT_ID,
                r < t1.len(),
                t1.len() <= usize::MAX,
                t1.children(r as int) == cs,
                0 <= k <= cs.len(),
                forall|j: int| 0 <= j < cs.len() ==> off <= #[trigger] cs[j] < t1.len(),
                forall|j: int| 0 <= j < cs.len() ==> #[trigger] t1.parent(cs[j] as int) == Some(r),
                self.children(r as int) == cs.skip(k),
                self.children(x as int) == t1.children(x as int) + cs.take(k),
                forall|q: int| 0 <= q < t1.len() && q != x && q != r ==> #[trigger] self.children(q) == t1.children(q),
                forall|m: int| 0 <= m < t1.len() ==> #[trigger] self.parent(m) == (if cs.take(k).contains(m as usize) { Some(x) } else { t1.parent(m) }),
                closed_below(*self, off as int),
            ensures
                self.children(r as int) == Seq::<usize>::empty(),
                k == cs.len(),
            decreases cs.len() - k,
        {
            proof {
                lemma_first_child(*self, r as int);
            }
            let c = match self.nodes[r].first_child {
                None => {
                    proof {
                        assert(cs.skip(k).len() == 0);
                    }
                    break;
                },
                Some(c) => c,
            };
            let ghost t = *self;
            proof {
                assert(c.value == cs[k]);
                let t3 = cs.take(k);
                assert(!t3.contains(c.value)) by {
                    if t3.contains(c.value) {
                        let j = choose|j: int| 0 <= j < t3.len() && #[trigger] t3[j] == c.value;
                        assert(cs[j] == cs[k]);
                        lemma_neighbours(t1.nodes@, t1.chains@, t1.pos@, t1.depth@, cs[k] as int);
                        crate::reparent::lemma_children_are_childs(t1.nodes@, t1.chains@, t1.pos@, t1.depth@, r as int);
                    }
                }
                lemma_closed_not_desc(*self, off as int, x as int, c.value as int);
            }
            TreeNodeOps::append_child_of(self, id, &c);
            proof {
                let u = *self;
                let sw = children_without(t, c.value as int, x as int);
                assert(moved(t, u, c.value as int, Some(x), sw, sw.len() as int));
                assert(t.parent(c.value as int) == Some(r));
                assert(u.children(x as int) =~= t1.children(x as int) + cs.take(k + 1));
                assert(u.children(r as int) =~= cs.skip(k + 1));
                assert forall|q: int| 0 <= q < t1.len() && q != x && q != r implies #[trigger] u.children(q) == t1.children(q) by {
                    assert(t.children(q) == t1.children(q));
                    assert(Some(x) != Some(q as usize));
                    assert(u.children(q) == children_without(t, c.value as int, q));
                }
                assert forall|m: int| 0 <= m < t1.len() implies #[trigger] u.parent(m) == (if cs.take(k + 1).contains(m as usize) { Some(x) } else { t1.parent(m) }) by {
                    if m != c.value {
                        let t2 = cs.take(k + 1);
                        let t3 = cs.take(k);
                        assert(t2.contains(m as usize) == t3.contains(m as usize)) by {
                            if t2.contains(m as usize) {
                                let j = choose|j: int| 0 <= j < t2.len() && #[trigger] t2[j] == m as usize;
                                assert(t2[k] == c.value);
                                assert(j < k);
                                assert(t3[j] == m as usize);
                            }
                            if t3.contains(m as usize) {
                                let j = choose|j: int| 0 <= j < t3.len() && #[trigger] t3[j] == m as usize;
                                assert(t2[j] == m as usize);
                            }
                        }
                    } else {
                        assert(cs.take(k + 1)[k] == c.value);
                    }
                }
                assert forall|m: int| 0 <= m < off implies (#[trigger] u.parent(m) matches Some(q) ==> q < off) by {
                    assert(u.parent(m) == t.parent(m));
                }
                k = k + 1;
            }
        }
        proof {
            assert(cs.take(k) =~= cs);
            let u = *self;
            assert forall|kk: int| 0 <= kk < cs.len() implies #[trigger] u.parent(cs[kk] as int) == Some(x) by {
                assert(cs.take(k).contains(cs[kk]));
            }
            assert forall|m: int| 0 <= m < t0.len() implies #[trigger] u.parent(m) == t0.parent(m) by {
                let t3 = cs.take(k);
                if t3.contains(m as usize) {
                    let j = choose|j: int| 0 <= j < t3.len() && #[trigger] t3[j] == m as usize;
                    assert(cs[j] >= off);
                }
            }
            assert forall|i: int| 0 <= i < t0.len() implies #[trigger] u.data(i) == t0.data(i) by {
                assert(u.nodes@[i].data == t1.nodes@[i].data);
            }
            assert forall|j: int| 0 <= j < o.len() implies #[trigger] u.data(off + j) == o.data(j) by {
                assert(u.nodes@[off + j].data == t1.nodes@[off + j].data);
            }
            assert forall|j: int| 0 <= j < o.len() && j != TRUE_ROOT_ID implies #[trigger] u.children(off + j) == shift_seq(o.children(j), off) by {
                assert(u.children(off + j) == t1.children(off + j));
            }
            assert forall|j: int| 0 <= j < o.len() && o.parent(j) != Some(TRUE_ROOT_ID) implies #[trigger] u.parent(off + j) == (match o.parent(j) {
                Some(q) => Some((q + off) as usize),
                None => None,
            }) by {
                let t3 = cs.take(k);
                if t3.contains((off + j) as usize) {
                    let jj = choose|jj: int| 0 <= jj < t3.len() && #[trigger] t3[jj] == (off + j) as usize;
                    crate::reparent::lemma_children_are_childs(o.nodes@, o.chains@, o.pos@, o.depth@, TRUE_ROOT_ID as int);
                    assert(o.children(TRUE_ROOT_ID as int)[jj] == j);
                }
            }
        }
    }
}

impl Tree {
    /// Inserts the children of node [`TRUE_ROOT_ID`] of another tree (the content of a
    /// parsed fragment) just before node `id`, in their order, as its siblings under
    /// its parent (or without a parent, as `id` is). The other tree's nodes all join
    /// this tree's arena, their ids moved up by its size. Nothing changes when `id` is
    /// not in this tree or the other tree has no such node.
    ///
    /// As in [`Tree::append_children_from_another_tree`], a node of the other tree
    /// whose parent is node 0 or 1 of that tree keeps that parent, moved up, so that
    /// the arena stays well formed.
    pub fn append_prev_siblings_from_another_tree(&mut self, id: &NodeId, tree: Tree)
        requires
            old(self).wf(),
            tree.wf(),
            old(self).len() > 0,
            tree.len() > 0,
            old(self).len() + tree.len() <= usize::MAX,
        ensures
            final(self).wf(),
            !(old(self).valid(id.value as int) && tree.len() > TRUE_ROOT_ID) ==> *final(self) == *old(self),
            old(self).valid(id.value as int) && tree.len() > TRUE_ROOT_ID ==> {
                let off = old(self).len() as usize;
                let cs = shift_seq(tree.children(TRUE_ROOT_ID as int), off);
                let s = old(self).siblings(id.value as int);
                let i0 = old(self).index(id.value as int);
                &&& final(self).len() == old(self).len() + tree.len()
                &&& final(self).siblings(id.value as int) == s.take(i0) + cs + s.skip(i0)
                &&& final(self).index(id.value as int) == i0 + cs.len()
                &&& final(self).children(off + TRUE_ROOT_ID) == Seq::<usize>::empty()
                &&& forall|m: int| 0 <= m < old(self).len() ==> #[trigger] final(self).parent(m) == old(self).parent(m)
                &&& forall|k: int| 0 <= k < cs.len() ==> #[trigger] final(self).parent(cs[k] as int) == old(self).parent(id.value as int)
                &&& forall|i: int| 0 <= i < old(self).len() ==> #[trigger] final(self).data(i) == old(self).data(i)
                &&& forall|j: int| 0 <= j < tree.len() ==> #[trigger] final(self).data(off + j) == tree.data(j)
                &&& forall|j: int| 0 <= j < tree.len() && j != TRUE_ROOT_ID ==> #[trigger] final(self).children(off + j) == shift_seq(tree.children(j), off)
                &&& forall|j: int| 0 <= j < tree.len() && tree.parent(j) != Some(TRUE_ROOT_ID) ==> #[trigger] final(self).parent(off + j) == (match tree.parent(j) {
                    Some(q) => Some((q + off) as usize),
                    None => None,
                })
            },
    {
        if id.value >= self.nodes.len() || tree.nodes.len() <= TRUE_ROOT_ID {
            return;
        }
        let ghost t0 = *self;
        let ghost o = tree;
        let x = id.value;
        let off = self.merge(tree);
        let ghost t1 = *self;
        let r = off + TRUE_ROOT_ID;
        let ghost cs = shift_seq(o.children(TRUE_ROOT_ID as int), off);
        let ghost s = t0.siblings(x as int);
        let ghost i0 = t0.index(x as int);
        proof {
            lemma_merged_model(t0, o, t1);
            assert(t1.children(r as int) == cs);
            assert forall|m: int| 0 <= m < off implies (#[trigger] t1.parent(m) matches Some(q) ==> q < off) by {
                assert(node_ok(t0.nodes@, t0.chains@, t0.pos@, t0.depth@, m));
            }
            assert forall|k: int| 0 <= k < cs.len() implies off <= #[trigger] cs[k] < t1.len() by {
                lemma_neighbours(o.nodes@, o.chains@, o.pos@, o.depth@, TRUE_ROOT_ID as int);
                crate::reparent::lemma_children_are_childs(o.nodes@, o.chains@, o.pos@, o.depth@, TRUE_ROOT_ID as int);
            }
            crate::reparent::lemma_children_are_childs(t1.nodes@, t1.chains@, t1.pos@, t1.depth@, r as int);
            assert(node_ok(t0.nodes@, t0.chains@, t0.pos@, t0.depth@, x as int));
            assert(s.take(i0) + Seq::<usize>::empty() + s.skip(i0) =~= s);
            assert(cs.take(0) =~= Seq::<usize>::empty());
        }
        let ghost mut k: int = 0;
        loop
            invariant
                self.wf(),
                t1.wf(),
                self.same_data(&t1),
                off == t0.len(),
                x < off,
                x == id.value,
                r == off + TRUE_ROOT_ID,
                r < t1.len(),
                t1.len() <= usize::MAX,
                t1.children(r as int) == cs,
                0 <= k <= cs.len(),
                forall|j: int| 0 <= j < cs.len() ==> off <= #[trigger] cs[j] < t1.len(),
                forall|j: int| 0 <= j < cs.len() ==> #[trigger] t1.parent(cs[j] as int) == Some(r),
                self.children(r as int) == cs.skip(k),
                self.siblings(x as int) == s.take(i0) + cs.take(k) + s.skip(i0),
                self.index(x as int) == i0 + k,
                0 <= i0 < s.len(),
                s[i0] == x,
                self.parent(x as int) == t1.parent(x as int),
                t1.parent(x as int) matches Some(px) ==> px < off,
                forall|q: int| off <= q < t1.len() && q != r ==> #[trigger] self.children(q) == t1.children(q),
                forall|m: int| 0 <= m < t1.len() ==> #[trigger] self.parent(m) == (if cs.take(k).contains(m as usize) { t1.parent(x as int) } else { t1.parent(m) }),
                closed_below(*self, off as int),
            ensures
                self.children(r as int) == Seq::<usize>::empty(),
                k == cs.len(),
            decreases cs.len() - k,
        {
            proof {
                lemma_first_child(*self, r as int);
            }
            let c = match self.nodes[r].first_child {
                None => {
                    proof {
                        assert(cs.skip(k).len() == 0);
                    }
                    break;
                },
                Some(c) => c,
            };
            let ghost t = *self;
            proof {
                assert(c.value == cs[k]);
                let t3 = cs.take(k);
                assert(!t3.contains(c.value)) by {
                    if t3.contains(c.value) {
                        let j = choose|j: int| 0 <= j < t3.len() && #[trigger] t3[j] == c.value;
                        assert(cs[j] == cs[k]);
                        lemma_neighbours(t1.nodes@, t1.chains@, t1.pos@, t1.depth@, cs[k] as int);
                        crate::reparent::lemma_children_are_childs(t1.nodes@, t1.chains@, t1.pos@, t1.depth@, r as int);
                    }
                }
                assert(t.parent(c.value as int) == Some(r));
                if let Some(q) = t.parent(x as int) {
                    lemma_closed_not_desc(t, off as int, q as int, c.value as int);
                }
                // The chain of `x` holds `x`; the chain of `c` holds only merged nodes.
                assert(t.siblings(x as int)[i0 + k] == x);
                assert(t.siblings(c.value as int) == cs.skip(k));
                assert(t.siblings(x as int) != t.siblings(c.value as int)) by {
                    if t.siblings(x as int) == t.siblings(c.value as int) {
                        assert(cs.skip(k)[i0 + k] == cs[i0 + 2 * k]);
                    }
                }
            }
            TreeNodeOps::insert_before_of(self, id, &c);
            proof {
                let u = *self;
                let sw = siblings_without(t, c.value as int, x as int);
                assert(sw == t.siblings(x as int));
                assert(index_without(t, c.value as int, x as int) == i0 + k);
                assert(moved(t, u, c.value as int, t.parent(x as int), sw, i0 + k));
                assert(u.siblings(x as int) == sw.insert(i0 + k, c.value));
                assert(u.siblings(x as int) =~= s.take(i0) + cs.take(k + 1) + s.skip(i0));
                assert(u.siblings(x as int)[i0 + k + 1] == x);
                lemma_neighbours(u.nodes@, u.chains@, u.pos@, u.depth@, x as int);
                assert(u.index(x as int) == i0 + k + 1);
                assert(Some(r) != t.parent(x as int));
                assert(u.children(r as int) == children_without(t, c.value as int, r as int));
                assert(u.children(r as int) =~= cs.skip(k + 1));
                assert forall|m: int| 0 <= m < t1.len() implies #[trigger] u.parent(m) == (if cs.take(k + 1).contains(m as usize) { t1.parent(x as int) } else { t1.parent(m) }) by {
                    if m != c.value {
                        let t2 = cs.take(k + 1);
                        let t3 = cs.take(k);
                        assert(t2.contains(m as usize) == t3.contains(m as usize)) by {
                            if t2.contains(m as usize) {
                                let j = choose|j: int| 0 <= j < t2.len() && #[trigger] t2[j] == m as usize;
                                assert(t2[k] == c.value);
                                assert(j < k);
                                assert(t3[j] == m as usize);
                            }
                            if t3.contains(m as usize) {
                                let j = choose|j: int| 0 <= j < t3.len() && #[trigger] t3[j] == m as usize;
                                assert(t2[j] == m as usize);
                            }
                        }
                    } else {
                        assert(cs.take(k + 1)[k] == c.value);
                    }
                }
                assert forall|m: int| 0 <= m < off implies (#[trigger] u.parent(m) matches Some(q) ==> q < off) by {
                    assert(u.parent(m) == t.parent(m));
                }
                assert forall|q: int| off <= q < t1.len() && q != r implies #[trigger] u.children(q) == t1.children(q) by {
                    assert(t.children(q) == t1.children(q));
                    assert(u.children(q) == children_without(t, c.value as int, q));
                }
                k = k + 1;
            }
        }
        proof {
            assert(cs.take(k) =~= cs);
            let u = *self;
            assert forall|kk: int| 0 <= kk < cs.len() implies #[trigger] u.parent(cs[kk] as int) == t0.parent(x as int) by {
                assert(cs.take(k).contains(cs[kk]));
            }
            assert forall|m: int| 0 <= m < t0.len() implies #[trigger] u.parent(m) == t0.parent(m) by {
                let t3 = cs.take(k);
                if t3.contains(m as usize) {
                    let j = choose|j: int| 0 <= j < t3.len() && #[trigger] t3[j] == m as usize;
                    assert(cs[j] >= off);
                }
            }
            assert forall|i: int| 0 <= i < t0.len() implies #[trigger] u.data(i) == t0.data(i) by {
                assert(u.nodes@[i].data == t1.nodes@[i].data);
            }
            assert forall|j: int| 0 <= j < o.len() implies #[trigger] u.data(off + j) == o.data(j) by {
                assert(u.nodes@[off + j].data == t1.nodes@[off + j].data);
            }
            assert forall|j: int| 0 <= j < o.len() && j != TRUE_ROOT_ID implies #[trigger] u.children(off + j) == shift_seq(o.children(j), off) by {
                assert(u.children(off + j) == t1.children(off + j));
            }
            assert forall|j: int| 0 <= j < o.len() && o.parent(j) != Some(TRUE_ROOT_ID) implies #[trigger] u.parent(off + j) == (match o.parent(j) {
                Some(q) => Some((q + off) as usize),
                None => None,
            }) by {
                let t3 = cs.take(k);
                if t3.contains((off + j) as usize) {
                    let jj = choose|jj: int| 0 <= jj < t3.len() && #[trigger] t3[jj] == (off + j) as usize;
                    crate::reparent::lemma_children_are_childs(o.nodes@, o.chains@, o.pos@, o.depth@, TRUE_ROOT_ID as int);
                    assert(o.children(TRUE_ROOT_ID as int)[jj] == j);
                }
            }
        }
    }
}

} // verus!
