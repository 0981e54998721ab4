//! Grafting copies of a selection onto the nodes of another: the selection's nodes
//! leave their parents, and each target gets its own copy of each of them.
use vstd::prelude::*;
use crate::node::NodeId;
use crate::tree::{Tree, node_ok};
use crate::ops::{moved, children_without, siblings_without, index_without};
use crate::chains::lemma_chain_members;
use crate::query::ids_of;
use crate::copy::{copy_of, lemma_copy_kept};
use crate::subtree::subtree;
use crate::merge::{closed_below, lemma_closed_not_desc};
use crate::selection_edit::nodes_removed;

verus! {

/// Each pair of a target of `ts` and a node of `xs`, targets in the outer order.
pub open spec fn pairs(ts: Seq<usize>, xs: Seq<usize>) -> Seq<(usize, usize)>
    decreases ts.len(),
{
    if ts.len() == 0 {
        Seq::empty()
    } else {
        pairs(ts.drop_last(), xs) + xs.map_values(|x: usize| (ts.last(), x))
    }
}

/// `v` is `u` with a fresh copy of the subtree of node `x` added as the last child of
/// node `q`: the copy takes the ids from `u.len()` on, and every older node keeps its
/// data, its parent and, but for `q`, its children.
pub open spec fn copy_appended(u: Tree, v: Tree, q: int, x: int) -> bool {
    let r = u.len() as int;
    &&& v.len() == u.len() + subtree(u, x as usize).len()
    &&& copy_of(v, r, u, x, u.len(), r, v.len() as int)
    &&& v.parent(r) == Some(q as usize)
    &&& v.children(q) == u.children(q).push(r as usize)
    &&& forall|i: int| 0 <= i < u.len() && i != q ==> #[trigger] v.children(i) == u.children(i)
    &&& forall|i: int| 0 <= i < u.len() ==> #[trigger] v.parent(i) == u.parent(i)
    &&& forall|i: int| 0 <= i < u.len() ==> #[trigger] v.data(i) == u.data(i)
}

/// One step of a graft: a copy of `x` appended to `q` where both are nodes of `u`,
/// and nothing otherwise.
pub open spec fn append_step(u: Tree, v: Tree, q: int, x: int) -> bool {
    if u.valid(q) && u.valid(x) {
        copy_appended(u, v, q, x)
    } else {
        v == u
    }
}

/// The trees of `steps` go from one to the next by the steps of `ps`.
pub open spec fn append_chain(steps: Seq<Tree>, ps: Seq<(usize, usize)>) -> bool {
    &&& steps.len() == ps.len() + 1
    &&& forall|k: int| 0 <= k < ps.len() ==> append_step(#[trigger] steps[k], steps[k + 1], ps[k].0 as int, ps[k].1 as int)
}

/// `u` is `t` once the nodes `xs` have left their parents and then each target of `ts`,
/// in turn, has been given a copy of each node of `xs`, in turn, as its last child.
/// With no node in `xs`, nothing changes.
pub open spec fn selection_appended(t: Tree, u: Tree, ts: Seq<usize>, xs: Seq<usize>) -> bool {
    if xs.len() == 0 {
        u == t
    } else {
        exists|steps: Seq<Tree>| {
            &&& nodes_removed(t, steps[0], xs)
            &&& append_chain(steps, pairs(ts, xs))
            &&& #[trigger] steps.last() == u
        }
    }
}

/// `v` is `u` with a fresh copy of the subtree of node `x` put just before node `q`,
/// under the parent of `q` (a copy of a node without a parent gets none): the copy
/// takes the ids from `u.len()` on, and every older node keeps its data, its parent
/// and, but for the parent of `q`, its children.
pub open spec fn copy_inserted(u: Tree, v: Tree, q: int, x: int) -> bool {
    let r = u.len() as int;
    &&& v.len() == u.len() + subtree(u, x as usize).len()
    &&& copy_of(v, r, u, x, u.len(), r, v.len() as int)
    &&& v.parent(r) == u.parent(q)
    &&& forall|i: int| 0 <= i < u.len() ==> #[trigger] v.children(i) == (if u.parent(q) == Some(i as usize) {
        u.children(i).insert(u.index(q), r as usize)
    } else {
        u.children(i)
    })
    &&& forall|i: int| 0 <= i < u.len() ==> #[trigger] v.parent(i) == u.parent(i)
    &&& forall|i: int| 0 <= i < u.len() ==> #[trigger] v.data(i) == u.data(i)
}

/// One step of a replacement: a copy of `x` put before `q` where both are nodes of
/// `u`, and nothing otherwise.
pub open spec fn insert_step(u: Tree, v: Tree, q: int, x: int) -> bool {
    if u.valid(q) && u.valid(x) {
        copy_inserted(u, v, q, x)
    } else {
        v == u
    }
}

/// The trees of `steps` go from one to the next by the insertions of `ps`.
pub open spec fn insert_chain(steps: Seq<Tree>, ps: Seq<(usize, usize)>) -> bool {
    &&& steps.len() == ps.len() + 1
    &&& forall|k: int| 0 <= k < ps.len() ==> insert_step(#[trigger] steps[k], steps[k + 1], ps[k].0 as int, ps[k].1 as int)
}

/// `u` is `t` once the nodes `xs` have left their parents, each target of `ts`, in
/// turn, has had a copy of each node of `xs`, in turn, put just before it, and the
/// targets have then left their parents. With no node in `xs`, nothing changes.
pub open spec fn selection_replaced(t: Tree, u: Tree, ts: Seq<usize>, xs: Seq<usize>) -> bool {
    if xs.len() == 0 {
        u == t
    } else {
        exists|steps: Seq<Tree>| {
            &&& nodes_removed(t, steps[0], xs)
            &&& insert_chain(steps, pairs(ts, xs))
            &&& #[trigger] nodes_removed(steps.last(), u, ts)
        }
    }
}

/// A fresh copy of `x` appended to `q`: the step of a graft, on a tree and two of its nodes.
proof fn lemma_append_copy(u: Tree, u1: Tree, v: Tree, q: int, x: int)
    requires
        u.wf(),
        u.valid(q),
        u.valid(x),
        u1.wf(),
        u1.len() == u.len() + subtree(u, x as usize).len(),
        copy_of(u1, u.len() as int, u, x, u.len(), u.len() as int, u1.len() as int),
        u1.parent(u.len() as int) is None,
        u1.len() <= usize::MAX,
        forall|i: int| 0 <= i < u.len() ==> #[trigger] u1.data(i) == u.data(i),
        forall|i: int| 0 <= i < u.len() ==> #[trigger] u1.children(i) == u.children(i),
        forall|i: int| 0 <= i < u.len() ==> #[trigger] u1.parent(i) == u.parent(i),
        moved(u1, v, u.len() as int, Some(q as usize), children_without(u1, u.len() as int, q),
            children_without(u1, u.len() as int, q).len() as int),
    ensures
        copy_appended(u, v, q, x),
{
    let r = u.len() as int;
    assert(v.len() == u1.len());
    assert forall|i: int| r <= i < u1.len() implies #[trigger] v.data(i) == u1.data(i) && v.children(i) == u1.children(i) by {
        assert(v.nodes@[i].data == u1.nodes@[i].data);
        assert(Some(q as usize) != Some(i as usize));
        assert(v.children(i) == children_without(u1, r, i));
    }
    lemma_copy_kept(u1, v, r, u, x, u.len(), r, u1.len() as int, r, v.len() as int);
    assert(children_without(u1, r, q) == u.children(q));
    assert(u.children(q).insert(u.children(q).len() as int, r as usize) =~= u.children(q).push(r as usize));
    assert forall|i: int| 0 <= i < u.len() && i != q implies #[trigger] v.children(i) == u.children(i) by {
        assert(Some(q as usize) != Some(i as usize));
        assert(v.children(i) == children_without(u1, r, i));
    }
    assert forall|i: int| 0 <= i < u.len() implies #[trigger] v.parent(i) == u.parent(i) by {
        assert(v.parent(i) == u1.parent(i));
    }
    assert forall|i: int| 0 <= i < u.len() implies #[trigger] v.data(i) == u.data(i) by {
        assert(v.nodes@[i].data == u1.nodes@[i].data);
    }
}

/// A fresh copy of `x` put before `q`: the step of a replacement, on a tree and two of its nodes.
proof fn lemma_insert_copy(u: Tree, u1: Tree, v: Tree, q: int, x: int)
    requires
        u.wf(),
        u.valid(q),
        u.valid(x),
        u1.wf(),
        u1.len() == u.len() + subtree(u, x as usize).len(),
        copy_of(u1, u.len() as int, u, x, u.len(), u.len() as int, u1.len() as int),
        u1.parent(u.len() as int) is None,
        u1.len() <= usize::MAX,
        forall|i: int| 0 <= i < u.len() ==> #[trigger] u1.data(i) == u.data(i),
        forall|i: int| 0 <= i < u.len() ==> #[trigger] u1.children(i) == u.children(i),
        forall|i: int| 0 <= i < u.len() ==> #[trigger] u1.parent(i) == u.parent(i),
        moved(u1, v, u.len() as int, u1.parent(q), siblings_without(u1, u.len() as int, q),
            index_without(u1, u.len() as int, q)),
    ensures
        copy_inserted(u, v, q, x),
{
    let r = u.len() as int;
    let o = u.parent(q);
    assert(u1.parent(q) == o);
    assert(node_ok(u.nodes@, u.chains@, u.pos@, u.depth@, q));
    assert(v.len() == u1.len());
    assert forall|i: int| r <= i < u1.len() implies #[trigger] v.data(i) == u1.data(i) && v.children(i) == u1.children(i) by {
        assert(v.nodes@[i].data == u1.nodes@[i].data);
        assert(o != Some(i as usize));
        assert(v.children(i) == children_without(u1, r, i));
    }
    lemma_copy_kept(u1, v, r, u, x, u.len(), r, u1.len() as int, r, v.len() as int);
    if let Some(p) = o {
        lemma_chain_members(u1, q);
        lemma_chain_members(u1, r);
        lemma_chain_members(u, q);
        if u1.siblings(q) == u1.siblings(r) {
            assert(u1.siblings(q)[u1.index(r)] == r);
            assert(u1.parent(r) == u1.parent(q));
        }
        assert(siblings_without(u1, r, q) == u.children(p as int));
        assert(index_without(u1, r, q) == u1.index(q));
        assert(u.siblings(q)[u1.index(q)] == q);
        assert(u.index(q) == u1.index(q));
    }
    assert forall|i: int| 0 <= i < u.len() implies #[trigger] v.children(i) == (if o == Some(i as usize) {
        u.children(i).insert(u.index(q), r as usize)
    } else {
        u.children(i)
    }) by {
        if o != Some(i as usize) {
            assert(v.children(i) == children_without(u1, r, i));
        }
    }
    assert forall|i: int| 0 <= i < u.len() implies #[trigger] v.parent(i) == u.parent(i) by {
        assert(v.parent(i) == u1.parent(i));
    }
    assert forall|i: int| 0 <= i < u.len() implies #[trigger] v.data(i) == u.data(i) by {
        assert(v.nodes@[i].data == u1.nodes@[i].data);
    }
}

impl Tree {
    /// Appends a fresh copy of node `x`, with all that lies below it, to node `q`
    /// as its last child; where either is not a node of the tree, nothing changes.
    fn append_copy(&mut self, q: usize, x: usize)
        requires
            old(self).wf(),
        ensures
            final(self).wf(),
            append_step(*old(self), *final(self), q as int, x as int),
    {
        if q >= self.nodes.len() || x >= self.nodes.len() {
            return;
        }
        let ghost u = *self;
        let r = self.copy_node_within(&NodeId { value: x });
        let ghost u1 = *self;
        let size = self.nodes.len();
        proof {
            assert(u1.len() == size);
            assert forall|m: int| 0 <= m < u.len() implies (#[trigger] u1.parent(m) matches Some(p) ==> p < u.len()) by {
                assert(node_ok(u.nodes@, u.chains@, u.pos@, u.depth@, m));
                assert(u1.data(m) == u.data(m));
            }
            lemma_closed_not_desc(u1, u.len() as int, q as int, r.value as int);
        }
        self.append_child_of(&NodeId { value: q }, &r);
        proof {
            assert forall|i: int| 0 <= i < u.len() implies #[trigger] u1.children(i) == u.children(i) by {
                assert(u1.data(i) == u.data(i));
            }
            assert forall|i: int| 0 <= i < u.len() implies #[trigger] u1.parent(i) == u.parent(i) by {
                assert(u1.data(i) == u.data(i));
            }
            lemma_append_copy(u, u1, *self, q as int, x as int);
        }
    }

    /// Takes the nodes `sel` out of their parents, then appends to each node of
    /// `targets`, in turn, a fresh copy of each node of `sel`, in turn, with all that
    /// lies below it. With no node in `sel`, nothing changes. Ids that are not nodes
    /// of the tree are passed over.
    pub fn append_selection_of(&mut self, targets: &[NodeId], sel: &[NodeId])
        requires
            old(self).wf(),
        ensures
            final(self).wf(),
            selection_appended(*old(self), *final(self), ids_of(targets@), ids_of(sel@)),
    {
        if sel.len() == 0 {
            return;
        }
        let ghost t0 = *self;
        let ghost ts = ids_of(targets@);
        let ghost xs = ids_of(sel@);
        self.remove_nodes(sel);
        let ghost mut steps: Seq<Tree> = seq![*self];
        let ghost mut ps: Seq<(usize, usize)> = Seq::empty();
        let mut i: usize = 0;
        proof {
            assert(ts.take(0) =~= Seq::<usize>::empty());
        }
        while i < targets.len()
            invariant
                self.wf(),
                i <= targets@.len(),
                ts == ids_of(targets@),
                xs == ids_of(sel@),
                xs.len() > 0,
                nodes_removed(t0, steps[0], xs),
                append_chain(steps, ps),
                steps.last() == *self,
                ps == pairs(ts.take(i as int), xs),
            decreases targets.len() - i,
        {
            let q = targets[i].value;
            let mut j: usize = 0;
            proof {
                assert(xs.take(0).map_values(|x: usize| (q, x)) =~= Seq::<(usize, usize)>::empty());
                assert(ps + xs.take(0).map_values(|x: usize| (q, x)) =~= ps);
            }
            while j < sel.len()
                invariant
                    self.wf(),
                    i < targets@.len(),
                    j <= sel@.len(),
                    q == ts[i as int],
                    ts == ids_of(targets@),
                    xs == ids_of(sel@),
                    nodes_removed(t0, steps[0], xs),
                    append_chain(steps, ps),
                    steps.last() == *self,
                    ps == pairs(ts.take(i as int), xs) + xs.take(j as int).map_values(|x: usize| (q, x)),
                decreases sel.len() - j,
            {
                let x = sel[j].value;
                let ghost u = *self;
                let ghost s0 = steps;
                let ghost p0 = ps;
                self.append_copy(q, x);
                proof {
                    steps = s0.push(*self);
                    ps = p0.push((q, x));
                    assert(xs.take(j + 1).map_values(|y: usize| (q, y))
                        =~= xs.take(j as int).map_values(|y: usize| (q, y)).push((q, x)));
                    assert(ps =~= pairs(ts.take(i as int), xs) + xs.take(j + 1).map_values(|y: usize| (q, y)));
                    assert forall|k: int| 0 <= k < ps.len() implies append_step(#[trigger] steps[k], steps[k + 1], ps[k].0 as int, ps[k].1 as int) by {
                        if k < p0.len() {
                            assert(steps[k] == s0[k] && steps[k + 1] == s0[k + 1]);
                            assert(append_step(s0[k], s0[k + 1], p0[k].0 as int, p0[k].1 as int));
                        } else {
                            assert(steps[k] == u);
                        }
                    }
                    assert(steps[0] == s0[0]);
                }
                j = j + 1;
            }
            proof {
                assert(xs.take(j as int) =~= xs);
                let tk = ts.take(i + 1);
                assert(tk.drop_last() =~= ts.take(i as int));
                assert(tk.last() == q);
            }
            i = i + 1;
        }
        proof {
            assert(ts.take(i as int) =~= ts);
            assert(selection_appended(t0, *self, ts, xs));
        }
    }

    /// Puts a fresh copy of node `x`, with all that lies below it, just before node
    /// `q`; where either is not a node of the tree, nothing changes.
    fn insert_copy(&mut self, q: usize, x: usize)
        requires
            old(self).wf(),
        ensures
            final(self).wf(),
            insert_step(*old(self), *final(self), q as int, x as int),
    {
        if q >= self.nodes.len() || x >= self.nodes.len() {
            return;
        }
        let ghost u = *self;
        let r = self.copy_node_within(&NodeId { value: x });
        let ghost u1 = *self;
        let size = self.nodes.len();
        proof {
            assert(u1.len() == size);
            assert forall|m: int| 0 <= m < u.len() implies (#[trigger] u1.parent(m) matches Some(p) ==> p < u.len()) by {
                assert(node_ok(u.nodes@, u.chains@, u.pos@, u.depth@, m));
                assert(u1.data(m) == u.data(m));
            }
            assert(u1.data(q as int) == u.data(q as int));
            if let Some(p) = u1.parent(q as int) {
                lemma_closed_not_desc(u1, u.len() as int, p as int, r.value as int);
            }
        }
        self.insert_before_of(&NodeId { value: q }, &r);
        proof {
            assert forall|i: int| 0 <= i < u.len() implies #[trigger] u1.children(i) == u.children(i) by {
                assert(u1.data(i) == u.data(i));
            }
            assert forall|i: int| 0 <= i < u.len() implies #[trigger] u1.parent(i) == u.parent(i) by {
                assert(u1.data(i) == u.data(i));
            }
            lemma_insert_copy(u, u1, *self, q as int, x as int);
        }
    }

    /// Takes the nodes `sel` out of their parents, puts just before each node of
    /// `targets`, in turn, a fresh copy of each node of `sel`, in turn, with all that
    /// lies below it, and then takes the targets out of their parents. With no node in
    /// `sel`, nothing changes. Ids that are not nodes of the tree are passed over.
    pub fn replace_with_selection_of(&mut self, targets: &[NodeId], sel: &[NodeId])
        requires
            old(self).wf(),
        ensures
            final(self).wf(),
            selection_replaced(*old(self), *final(self), ids_of(targets@), ids_of(sel@)),
    {
        if sel.len() == 0 {
            return;
        }
        let ghost t0 = *self;
        let ghost ts = ids_of(targets@);
        let ghost xs = ids_of(sel@);
        self.remove_nodes(sel);
        let ghost mut steps: Seq<Tree> = seq![*self];
        let ghost mut ps: Seq<(usize, usize)> = Seq::empty();
        let mut i: usize = 0;
        proof {
            assert(ts.take(0) =~= Seq::<usize>::empty());
        }
        while i < targets.len()
            invariant
                self.wf(),
                i <= targets@.len(),
                ts == ids_of(targets@),
                xs == ids_of(sel@),
                xs.len() > 0,
                nodes_removed(t0, steps[0], xs),
                insert_chain(steps, ps),
                steps.last() == *self,
                ps == pairs(ts.take(i as int), xs),
            decreases targets.len() - i,
        {
            let q = targets[i].value;
            let mut j: usize = 0;
            proof {
                assert(ps + xs.take(0).map_values(|x: usize| (q, x)) =~= ps);
            }
            while j < sel.len()
                invariant
                    self.wf(),
                    i < targets@.len(),
                    j <= sel@.len(),
                    q == ts[i as int],
                    ts == ids_of(targets@),
                    xs == ids_of(sel@),
                    nodes_removed(t0, steps[0], xs),
                    insert_chain(steps, ps),
                    steps.last() == *self,
                    ps == pairs(ts.take(i as int), xs) + xs.take(j as int).map_values(|x: usize| (q, x)),
                decreases sel.len() - j,
            {
                let x = sel[j].value;
                let ghost u = *self;
                let ghost s0 = steps;
                let ghost p0 = ps;
                self.insert_copy(q, x);
                proof {
                    steps = s0.push(*self);
                    ps = p0.push((q, x));
                    assert(xs.take(j + 1).map_values(|y: usize| (q, y))
                        =~= xs.take(j as int).map_values(|y: usize| (q, y)).push((q, x)));
                    assert(ps =~= pairs(ts.take(i as int), xs) + xs.take(j + 1).map_values(|y: usize| (q, y)));
                    assert forall|k: int| 0 <= k < ps.len() implies insert_step(#[trigger] steps[k], steps[k + 1], ps[k].0 as int, ps[k].1 as int) by {
                        if k < p0.len() {
                            assert(steps[k] == s0[k] && steps[k + 1] == s0[k + 1]);
                            assert(insert_step(s0[k], s0[k + 1], p0[k].0 as int, p0[k].1 as int));
                        } else {
                            assert(steps[k] == u);
                        }
                    }
                    assert(steps[0] == s0[0]);
                }
                j = j + 1;
            }
            proof {
                assert(xs.take(j as int) =~= xs);
                let tk = ts.take(i + 1);
                assert(tk.drop_last() =~= ts.take(i as int));
                assert(tk.last() == q);
            }
            i = i + 1;
        }
        let ghost last = *self;
        self.remove_nodes(targets);
        proof {
            assert(ts.take(i as int) =~= ts);
            assert(steps.last() == last);
            assert(nodes_removed(steps.last(), *self, ts));
            assert(selection_replaced(t0, *self, ts, xs));
        }
    }
}

} // verus!
