//! Edits of every element of a selection: one element edit, applied to each node once.
use vstd::prelude::*;
use crate::node::{NodeId, NodeData, Element};
use crate::tree::{Tree, node_ok};
use crate::ops::detached;
use crate::chains::lemma_chain_members;
use crate::query::ids_of;
use crate::node_edit::{element_edited, attr_set, attr_removed, attrs_filtered, attrs_cleared, renamed,
    class_added, class_removed};

verus! {

/// One edit of an element: what the selection's editing methods apply to each node.
pub enum ElementEdit<'s> {
    SetAttr(&'s str, &'s str),
    RemoveAttr(&'s str),
    RemoveAttrs(&'s [&'s str]),
    RetainAttrs(&'s [&'s str]),
    RemoveAllAttrs,
    Rename(&'s str),
    AddClass(&'s str),
    RemoveClass(&'s str),
}

/// `e1` is `e0` once `edit` has been applied to it.
pub open spec fn edit_applies(edit: ElementEdit, e0: Element, e1: Element) -> bool {
    match edit {
        ElementEdit::SetAttr(name, val) => attr_set(e0, e1, name@, val@),
        ElementEdit::RemoveAttr(name) => attr_removed(e0, e1, name@),
        ElementEdit::RemoveAttrs(names) => attrs_filtered(e0, e1, names@.map_values(|n: &str| n@), false),
        ElementEdit::RetainAttrs(names) => attrs_filtered(e0, e1, names@.map_values(|n: &str| n@), true),
        ElementEdit::RemoveAllAttrs => attrs_cleared(e0, e1),
        ElementEdit::Rename(name) => renamed(e0, e1, name@),
        ElementEdit::AddClass(class) => class_added(e0, e1, class@),
        ElementEdit::RemoveClass(class) => class_removed(e0, e1, class@),
    }
}

/// `u` is `t` with `edit` applied to each element among the nodes `ids`: the shape
/// of the tree stays, and every other node keeps its data.
pub open spec fn elements_edited(t: Tree, u: Tree, ids: Seq<usize>, edit: ElementEdit) -> bool {
    &&& u.wf()
    &&& u.len() == t.len()
    &&& forall|m: int| 0 <= m < t.len() ==> #[trigger] u.parent(m) == t.parent(m)
    &&& forall|m: int| 0 <= m < t.len() ==> #[trigger] u.siblings(m) == t.siblings(m)
    &&& forall|q: int| 0 <= q < t.len() ==> #[trigger] u.children(q) == t.children(q)
    &&& forall|i: int| 0 <= i < t.len() ==> (if ids.contains(i as usize) && t.data(i) is Element {
        t.data(i) matches NodeData::Element(e0) && (#[trigger] u.data(i)) matches NodeData::Element(e1)
            && edit_applies(edit, e0, e1)
    } else {
        u.data(i) == t.data(i)
    })
}

proof fn lemma_push_contains(s: Seq<usize>, x: usize, y: usize)
    ensures
        s.push(x).contains(y) <==> (s.contains(y) || y == x),
{
    if s.push(x).contains(y) {
        let w = choose|w: int| 0 <= w < s.push(x).len() && s.push(x)[w] == y;
        if w < s.len() {
            assert(s[w] == y);
        }
    }
    if s.contains(y) {
        let w = choose|w: int| 0 <= w < s.len() && s[w] == y;
        assert(s.push(x)[w] == y);
    }
    if y == x {
        assert(s.push(x)[s.len() as int] == y);
    }
}

proof fn lemma_edit_step(t0: Tree, cur: Tree, next: Tree, s: Seq<usize>, x: usize, edit: ElementEdit)
    requires
        elements_edited(t0, cur, s, edit),
        element_edited(cur, next, x as int, |e0: Element, e1: Element| edit_applies(edit, e0, e1)),
        !s.contains(x),
        t0.len() <= usize::MAX,
    ensures
        elements_edited(t0, next, s.push(x), edit),
{
    assert forall|i: int| 0 <= i < t0.len() implies (if s.push(x).contains(i as usize) && t0.data(i) is Element {
        t0.data(i) matches NodeData::Element(e0) && (#[trigger] next.data(i)) matches NodeData::Element(e1)
            && edit_applies(edit, e0, e1)
    } else {
        next.data(i) == t0.data(i)
    }) by {
        lemma_push_contains(s, x, i as usize);
        let d = cur.data(i);
        if i == x {
            assert(d == t0.data(i));
            if !(t0.data(i) is Element) {
                assert(next == cur);
            }
        } else {
            if cur.valid(x as int) && cur.data(x as int) is Element {
                assert(next.data(i) == cur.data(i));
            } else {
                assert(next == cur);
            }
        }
    }
}

proof fn lemma_edit_repeat(t0: Tree, cur: Tree, s: Seq<usize>, x: usize, edit: ElementEdit)
    requires
        elements_edited(t0, cur, s, edit),
        s.contains(x),
    ensures
        elements_edited(t0, cur, s.push(x), edit),
{
    assert forall|i: usize| #[trigger] s.push(x).contains(i) == s.contains(i) by {
        lemma_push_contains(s, x, i);
    }
}

impl Tree {
    /// Applies `edit` to element `id`; any other node stays as it is.
    fn apply_edit(&mut self, id: &NodeId, edit: &ElementEdit)
        requires
            old(self).wf(),
        ensures
            element_edited(*old(self), *final(self), id.value as int, |e0: Element, e1: Element| edit_applies(*edit, e0, e1)),
    {
        match edit {
            ElementEdit::SetAttr(name, val) => {
                self.set_attr_of(id, name, val);
                proof {
                    assert((|e0: Element, e1: Element| edit_applies(*edit, e0, e1))
                        =~= (|e0: Element, e1: Element| attr_set(e0, e1, name@, val@)));
                }
            },
            ElementEdit::RemoveAttr(name) => {
                self.remove_attr_of(id, name);
                proof {
                    assert((|e0: Element, e1: Element| edit_applies(*edit, e0, e1))
                        =~= (|e0: Element, e1: Element| attr_removed(e0, e1, name@)));
                }
            },
            ElementEdit::RemoveAttrs(names) => {
                self.remove_attrs_of(id, names);
                proof {
                    assert((|e0: Element, e1: Element| edit_applies(*edit, e0, e1))
                        =~= (|e0: Element, e1: Element| attrs_filtered(e0, e1, names@.map_values(|n: &str| n@), false)));
                }
            },
            ElementEdit::RetainAttrs(names) => {
                self.retain_attrs_of(id, names);
                proof {
                    assert((|e0: Element, e1: Element| edit_applies(*edit, e0, e1))
                        =~= (|e0: Element, e1: Element| attrs_filtered(e0, e1, names@.map_values(|n: &str| n@), true)));
                }
            },
            ElementEdit::RemoveAllAttrs => {
                self.remove_all_attrs_of(id);
                proof {
                    assert((|e0: Element, e1: Element| edit_applies(*edit, e0, e1))
                        =~= (|e0: Element, e1: Element| attrs_cleared(e0, e1)));
                }
            },
            ElementEdit::Rename(name) => {
                self.rename_of(id, name);
                proof {
                    assert((|e0: Element, e1: Element| edit_applies(*edit, e0, e1))
                        =~= (|e0: Element, e1: Element| renamed(e0, e1, name@)));
                }
            },
            ElementEdit::AddClass(class) => {
                self.add_class_of(id, class);
                proof {
                    assert((|e0: Element, e1: Element| edit_applies(*edit, e0, e1))
                        =~= (|e0: Element, e1: Element| class_added(e0, e1, class@)));
                }
            },
            ElementEdit::RemoveClass(class) => {
                self.remove_class_of(id, class);
                proof {
                    assert((|e0: Element, e1: Element| edit_applies(*edit, e0, e1))
                        =~= (|e0: Element, e1: Element| class_removed(e0, e1, class@)));
                }
            },
        }
    }

    /// Applies `edit` to each element among the nodes `ids`, once to each even where
    /// an id repeats; ids out of the tree and nodes that are no elements are passed over.
    pub fn edit_nodes(&mut self, ids: &[NodeId], edit: &ElementEdit)
        requires
            old(self).wf(),
        ensures
            elements_edited(*old(self), *final(self), ids_of(ids@), *edit),
    {
        let ghost t0 = *self;
        let ghost all = ids_of(ids@);
        let n = self.nodes.len();
        let mut seen: Vec<bool> = Vec::new();
        let mut j: usize = 0;
        while j < n
            invariant
                j <= n,
                seen@.len() == j,
                forall|i: int| 0 <= i < j ==> !(#[trigger] seen@[i]),
            decreases n - j,
        {
            seen.push(false);
            j = j + 1;
        }
        proof {
            assert(all.take(0) =~= Seq::<usize>::empty());
        }
        let mut k: usize = 0;
        while k < ids.len()
            invariant
                k <= ids@.len(),
                all == ids_of(ids@),
                t0.wf(),
                n == t0.len(),
                seen@.len() == n,
                forall|i: int| 0 <= i < n ==> (#[trigger] seen@[i] <==> all.take(k as int).contains(i as usize)),
                elements_edited(t0, *self, all.take(k as int), *edit),
            decreases ids.len() - k,
        {
            let x = ids[k];
            proof {
                assert(all.take(k + 1) =~= all.take(k as int).push(x.value));
            }
            if x.value < n && !seen[x.value] {
                let ghost cur = *self;
                self.apply_edit(&x, edit);
                proof {
                    lemma_edit_step(t0, cur, *self, all.take(k as int), x.value, *edit);
                }
                seen.set(x.value, true);
            } else if x.value < n {
                proof {
                    lemma_edit_repeat(t0, *self, all.take(k as int), x.value, *edit);
                }
            } else {
                let ghost cur = *self;
                proof {
                    assert forall|i: int| 0 <= i < t0.len() implies (if all.take(k + 1).contains(i as usize) && t0.data(i) is Element {
                        t0.data(i) matches NodeData::Element(e0) && (#[trigger] cur.data(i)) matches NodeData::Element(e1)
                            && edit_applies(*edit, e0, e1)
                    } else {
                        cur.data(i) == t0.data(i)
                    }) by {
                        lemma_push_contains(all.take(k as int), x.value, i as usize);
                    }
                }
            }
            proof {
                assert forall|i: int| 0 <= i < n implies (#[trigger] seen@[i] <==> all.take(k + 1).contains(i as usize)) by {
                    lemma_push_contains(all.take(k as int), x.value, i as usize);
                }
            }
            k = k + 1;
        }
        proof {
            assert(all.take(k as int) =~= all);
        }
    }

    /// Sets attribute `name` to `val` on each element among the nodes `ids`.
    pub fn set_attr_of_nodes(&mut self, ids: &[NodeId], name: &str, val: &str)
        requires
            old(self).wf(),
        ensures
            elements_edited(*old(self), *final(self), ids_of(ids@), ElementEdit::SetAttr(name, val)),
    {
        self.edit_nodes(ids, &ElementEdit::SetAttr(name, val));
    }

    /// Removes attribute `name` from each element among the nodes `ids`.
    pub fn remove_attr_of_nodes(&mut self, ids: &[NodeId], name: &str)
        requires
            old(self).wf(),
        ensures
            elements_edited(*old(self), *final(self), ids_of(ids@), ElementEdit::RemoveAttr(name)),
    {
        self.edit_nodes(ids, &ElementEdit::RemoveAttr(name));
    }

    /// Removes the attributes named in `names` from each element among the nodes `ids`.
    pub fn remove_attrs_of_nodes(&mut self, ids: &[NodeId], names: &[&str])
        requires
            old(self).wf(),
        ensures
            elements_edited(*old(self), *final(self), ids_of(ids@), ElementEdit::RemoveAttrs(names)),
    {
        self.edit_nodes(ids, &ElementEdit::RemoveAttrs(names));
    }

    /// Keeps only the attributes named in `names` on each element among the nodes `ids`.
    pub fn retain_attrs_of_nodes(&mut self, ids: &[NodeId], names: &[&str])
        requires
            old(self).wf(),
        ensures
            elements_edited(*old(self), *final(self), ids_of(ids@), ElementEdit::RetainAttrs(names)),
    {
        self.edit_nodes(ids, &ElementEdit::RetainAttrs(names));
    }

    /// Removes every attribute of each element among the nodes `ids`.
    pub fn remove_all_attrs_of_nodes(&mut self, ids: &[NodeId])
        requires
            old(self).wf(),
        ensures
            elements_edited(*old(self), *final(self), ids_of(ids@), ElementEdit::RemoveAllAttrs),
    {
        self.edit_nodes(ids, &ElementEdit::RemoveAllAttrs);
    }

    /// Renames each element among the nodes `ids` to the local name `name`.
    pub fn rename_nodes(&mut self, ids: &[NodeId], name: &str)
        requires
            old(self).wf(),
        ensures
            elements_edited(*old(self), *final(self), ids_of(ids@), ElementEdit::Rename(name)),
    {
        self.edit_nodes(ids, &ElementEdit::Rename(name));
    }

    /// Adds the words of `class` to the class attribute of each element among the nodes `ids`.
    pub fn add_class_of_nodes(&mut self, ids: &[NodeId], class: &str)
        requires
            old(self).wf(),
        ensures
            elements_edited(*old(self), *final(self), ids_of(ids@), ElementEdit::AddClass(class)),
    {
        self.edit_nodes(ids, &ElementEdit::AddClass(class));
    }

    /// Takes the words of `class` out of the class attribute of each element among the nodes `ids`.
    pub fn remove_class_of_nodes(&mut self, ids: &[NodeId], class: &str)
        requires
            old(self).wf(),
        ensures
            elements_edited(*old(self), *final(self), ids_of(ids@), ElementEdit::RemoveClass(class)),
    {
        self.edit_nodes(ids, &ElementEdit::RemoveClass(class));
    }
}

/// `u` is `t` once each node among `ids` has left its parent: the data stays, the
/// removed nodes have no parent, and each node keeps the children that were not removed.
pub open spec fn nodes_removed(t: Tree, u: Tree, ids: Seq<usize>) -> bool {
    &&& u.wf()
    &&& u.same_data(&t)
    &&& forall|m: int| 0 <= m < t.len() ==> #[trigger] u.parent(m) == (if ids.contains(m as usize) { None } else { t.parent(m) })
    &&& forall|q: int| 0 <= q < t.len() ==> #[trigger] u.children(q) == t.children(q).filter(|c: usize| !ids.contains(c))
}

/// The children of a node are nodes of the tree with that parent, each at its index.
proof fn lemma_children_facts(t: Tree, q: int)
    requires
        t.wf(),
        0 <= q < t.len(),
    ensures
        forall|j: int| 0 <= j < t.children(q).len() ==> {
            let m = #[trigger] t.children(q)[j];
            &&& 0 <= m < t.len()
            &&& t.parent(m as int) == Some(q as usize)
            &&& t.index(m as int) == j
        },
{
    assert(node_ok(t.nodes@, t.chains@, t.pos@, t.depth@, q));
    if let Some(f) = t.first(q) {
        assert(node_ok(t.nodes@, t.chains@, t.pos@, t.depth@, f as int));
        lemma_chain_members(t, f as int);
    }
}

/// A predicate that every item passes leaves a sequence as it is.
proof fn lemma_filter_all(s: Seq<usize>, pred: spec_fn(usize) -> bool)
    requires
        forall|i: int| 0 <= i < s.len() ==> pred(#[trigger] s[i]),
    ensures
        s.filter(pred) == s,
    decreases s.len(),
{
    reveal(Seq::filter);
    if s.len() > 0 {
        lemma_filter_all(s.drop_last(), pred);
        assert(s.drop_last().push(s.last()) =~= s);
    } else {
        assert(s.filter(pred) =~= s);
    }
}

/// Removing the one place where `x` occurs is filtering `x` out.
proof fn lemma_remove_is_filter(s: Seq<usize>, k: int, x: usize)
    requires
        0 <= k < s.len(),
        s[k] == x,
        forall|j: int| 0 <= j < s.len() && #[trigger] s[j] == x ==> j == k,
    ensures
        s.remove(k) == s.filter(|c: usize| c != x),
    decreases s.len(),
{
    reveal(Seq::filter);
    let pred = |c: usize| c != x;
    if k == s.len() - 1 {
        assert(s.remove(k) =~= s.drop_last());
        lemma_filter_all(s.drop_last(), pred);
    } else {
        lemma_remove_is_filter(s.drop_last(), k, x);
        assert(s.remove(k) =~= s.drop_last().remove(k).push(s.last()));
    }
}

/// Filtering out the nodes of `ids`, then `x`, is filtering out those of `ids.push(x)`.
proof fn lemma_filter_out_more(s: Seq<usize>, ids: Seq<usize>, x: usize)
    ensures
        s.filter(|c: usize| !ids.contains(c)).filter(|c: usize| c != x) == s.filter(|c: usize| !ids.push(x).contains(c)),
    decreases s.len(),
{
    reveal(Seq::filter);
    let p = |c: usize| !ids.contains(c);
    let q = |c: usize| c != x;
    let r = |c: usize| !ids.push(x).contains(c);
    if s.len() > 0 {
        let a = s.drop_last();
        let l = s.last();
        lemma_filter_out_more(a, ids, x);
        lemma_push_contains(ids, x, l);
        let fa = a.filter(p);
        assert(a.filter(p).filter(q) == a.filter(r));
        if p(l) {
            assert(s.filter(p) == fa.push(l));
            assert(fa.push(l).drop_last() =~= fa);
            if q(l) {
                assert(fa.push(l).filter(q) == fa.filter(q).push(l));
            } else {
                assert(fa.push(l).filter(q) == fa.filter(q));
            }
        } else {
            assert(s.filter(p) == fa);
        }
    } else {
        assert(s.filter(|c: usize| !ids.contains(c)).filter(|c: usize| c != x) =~= Seq::<usize>::empty());
        assert(s.filter(|c: usize| !ids.push(x).contains(c)) =~= Seq::<usize>::empty());
    }
}

proof fn lemma_remove_step(t0: Tree, cur: Tree, next: Tree, s: Seq<usize>, x: usize)
    requires
        t0.wf(),
        nodes_removed(t0, cur, s),
        t0.len() <= usize::MAX,
        !cur.valid(x as int) ==> next == cur,
        cur.valid(x as int) ==> detached(cur, next, x as int),
    ensures
        nodes_removed(t0, next, s.push(x)),
{
    assert forall|m: int| 0 <= m < t0.len() implies #[trigger] next.parent(m) == (if s.push(x).contains(m as usize) { None } else { t0.parent(m) }) by {
        lemma_push_contains(s, x, m as usize);
        let p = cur.parent(m);
    }
    assert forall|q: int| 0 <= q < t0.len() implies #[trigger] next.children(q) == t0.children(q).filter(|c: usize| !s.push(x).contains(c)) by {
        lemma_filter_out_more(t0.children(q), s, x);
        lemma_children_facts(cur, q);
        let cs = cur.children(q);
        assert(cs == t0.children(q).filter(|c: usize| !s.contains(c)));
        if cur.valid(x as int) && cur.parent(x as int) == Some(q as usize) {
            lemma_chain_members(cur, x as int);
            assert forall|j: int| 0 <= j < cs.len() && #[trigger] cs[j] == x implies j == cur.index(x as int) by {}
            lemma_remove_is_filter(cs, cur.index(x as int), x);
        } else {
            assert forall|i: int| 0 <= i < cs.len() implies (|c: usize| c != x)(#[trigger] cs[i]) by {}
            lemma_filter_all(cs, |c: usize| c != x);
        }
    }
    if cur.valid(x as int) {
        assert(next.same_data(&t0));
    }
}

impl Tree {
    /// Takes each node among `ids` out of its parent; ids out of the tree are passed over.
    pub fn remove_nodes(&mut self, ids: &[NodeId])
        requires
            old(self).wf(),
        ensures
            nodes_removed(*old(self), *final(self), ids_of(ids@)),
    {
        let ghost t0 = *self;
        let ghost all = ids_of(ids@);
        let n = self.nodes.len();
        let mut k: usize = 0;
        proof {
            assert(n == t0.len());
            assert forall|q: int| 0 <= q < t0.len() implies (#[trigger] t0.children(q)).filter(|c: usize| !all.take(0).contains(c)) == t0.children(q) by {
                assert forall|i: int| 0 <= i < t0.children(q).len() implies (|c: usize| !all.take(0).contains(c))(#[trigger] t0.children(q)[i]) by {}
                lemma_filter_all(t0.children(q), |c: usize| !all.take(0).contains(c));
            }
        }
        while k < ids.len()
            invariant
                k <= ids@.len(),
                all == ids_of(ids@),
                t0.wf(),
                t0.len() == old(self).len(),
                t0.len() <= usize::MAX,
                nodes_removed(t0, *self, all.take(k as int)),
            decreases ids.len() - k,
        {
            let x = ids[k];
            let ghost cur = *self;
            proof {
                assert(all.take(k + 1) =~= all.take(k as int).push(x.value));
            }
            self.remove_from_parent(&x);
            proof {
                lemma_remove_step(t0, cur, *self, all.take(k as int), x.value);
            }
            k = k + 1;
        }
        proof {
            assert(all.take(k as int) =~= all);
        }
    }
}

} // verus!
