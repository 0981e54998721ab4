//! Normalization: adjacent text children merge into one text node and empty text
//! children go, in a node and in every node below it that may have children.
use vstd::prelude::*;
use crate::node::{NodeId, NodeData};
use crate::tree::{Tree, node_ok};
use crate::sink::Document;
use crate::ops::{detached, TreeNodeOps};
use crate::query::ids_of;
use crate::text::push_str;
use crate::chains::lemma_chain_members;
use crate::subtree::{texts, text_contents, subtree, preorder, forest, lemma_texts_append};

verus! {

/// Node `c` is a text node.
pub open spec fn is_text_node(t: Tree, c: usize) -> bool {
    t.data(c as int) is Text
}

/// The contents of node `c` when it is a text node, else nothing.
pub open spec fn text_contents_of(t: Tree, c: usize) -> Seq<char> {
    match t.data(c as int) {
        NodeData::Text { contents } => contents@,
        _ => Seq::empty(),
    }
}

/// The text of the run of text nodes of `cs` that ends at index `k`: the contents
/// of those nodes, one after the other; nothing when `cs[k]` is no text node.
pub open spec fn run_text(t: Tree, cs: Seq<usize>, k: int) -> Seq<char>
    decreases k + 1,
{
    if k < 0 || k >= cs.len() || !is_text_node(t, cs[k]) {
        Seq::empty()
    } else {
        run_text(t, cs, k - 1) + text_contents_of(t, cs[k])
    }
}

/// The child at index `k` of `cs` stays: it is no text node, or it ends its run of
/// text nodes and the run's text is not empty.
pub open spec fn stays(t: Tree, cs: Seq<usize>, k: int) -> bool {
    !is_text_node(t, cs[k]) || ((k + 1 == cs.len() || !is_text_node(t, cs[k + 1])) && run_text(t, cs, k).len() > 0)
}

/// The children among the first `n` of `cs` that stay, in order.
pub open spec fn kept_prefix(t: Tree, cs: Seq<usize>, n: int) -> Seq<usize>
    decreases n,
{
    if n <= 0 {
        Seq::empty()
    } else {
        kept_prefix(t, cs, n - 1) + (if stays(t, cs, n - 1) { seq![cs[n - 1]] } else { Seq::empty() })
    }
}

/// The children of a node once its text children are merged.
pub open spec fn kept(t: Tree, cs: Seq<usize>) -> Seq<usize> {
    kept_prefix(t, cs, cs.len() as int)
}

/// `u` is `t` once the text children of `y` are merged: each run of adjacent text
/// children is left as its last node, holding the run's text, or goes when that text
/// is empty; nothing else changes.
pub open spec fn texts_merged(t: Tree, u: Tree, y: int) -> bool {
    let cs = t.children(y);
    &&& u.wf()
    &&& u.len() == t.len()
    &&& u.children(y) == kept(t, cs)
    &&& forall|q: int| 0 <= q < t.len() && q != y ==> #[trigger] u.children(q) == t.children(q)
    &&& forall|m: int| 0 <= m < t.len() ==> #[trigger] u.parent(m) == (
        if t.parent(m) == Some(y as usize) && !stays(t, cs, t.index(m)) { None } else { t.parent(m) })
    &&& forall|i: int| 0 <= i < t.len() ==> (if t.parent(i) == Some(y as usize) && is_text_node(t, i as usize) && stays(t, cs, t.index(i)) {
        (#[trigger] u.data(i)) matches NodeData::Text { contents } && contents@ == run_text(t, cs, t.index(i))
    } else {
        u.data(i) == t.data(i)
    })
}

/// A node that normalizing `x` reaches: `x` itself, and each node that may have
/// children and whose parent is reached.
pub open spec fn reached(t: Tree, x: int, y: int) -> bool
    decreases t.depth@[y],
{
    if y == x {
        true
    } else if !(t.data(y) is Document || t.data(y) is Fragment || t.data(y) is Element) {
        false
    } else {
        match t.parent(y) {
            Some(p) => if t.depth@[p as int] < t.depth@[y] { reached(t, x, p as int) } else { false },
            None => false,
        }
    }
}

/// `u` is `t` once the text children of the reached nodes below `bound` are merged.
pub open spec fn merged_below(t: Tree, u: Tree, x: int, bound: int) -> bool {
    &&& u.wf()
    &&& u.len() == t.len()
    &&& forall|q: int| 0 <= q < t.len() ==> #[trigger] u.children(q) == (
        if q < bound && reached(t, x, q) { kept(t, t.children(q)) } else { t.children(q) })
    &&& forall|m: int| 0 <= m < t.len() ==> #[trigger] u.parent(m) == (
        if t.parent(m) matches Some(p) && p < bound && reached(t, x, p as int) && !stays(t, t.children(p as int), t.index(m)) {
            None
        } else {
            t.parent(m)
        })
    &&& forall|i: int| 0 <= i < t.len() ==> (
        if t.parent(i) matches Some(p) && p < bound && reached(t, x, p as int) && is_text_node(t, i as usize)
            && stays(t, t.children(p as int), t.index(i)) {
            (#[trigger] u.data(i)) matches NodeData::Text { contents } && contents@ == run_text(t, t.children(t.parent(i).unwrap() as int), t.index(i))
        } else {
            u.data(i) == t.data(i)
        })
}

/// `u` is `t` once node `x` is normalized: in `x` and in each node that the
/// normalization reaches, each run of adjacent text children is left as its last
/// node, which holds the run's text, or goes when that text is empty.
pub open spec fn normalized(t: Tree, u: Tree, x: int) -> bool {
    merged_below(t, u, x, t.len() as int)
}

/// The children of a node are nodes of the tree with that parent, each at its index.
pub proof fn lemma_kids(t: Tree, q: int)
    requires
        t.wf(),
        0 <= q < t.len(),
    ensures
        forall|j: int| 0 <= j < t.children(q).len() ==> {
            let m = #[trigger] t.children(q)[j];
            &&& 0 <= m < t.len()
            &&& t.parent(m as int) == Some(q as usize)
            &&& t.index(m as int) == j
        },
{
    assert(node_ok(t.nodes@, t.chains@, t.pos@, t.depth@, q));
    if let Some(f) = t.first(q) {
        assert(node_ok(t.nodes@, t.chains@, t.pos@, t.depth@, f as int));
        lemma_chain_members(t, f as int);
    }
}

/// A node whose parent is `q` is among the children of `q`, at its index.
pub proof fn lemma_child_at_index(t: Tree, m: int)
    requires
        t.wf(),
        0 <= m < t.len(),
        t.parent(m) is Some,
    ensures
        0 <= t.index(m) < t.children(t.parent(m).unwrap() as int).len(),
        t.children(t.parent(m).unwrap() as int)[t.index(m)] == m,
{
    lemma_chain_members(t, m);
}

/// The run texts and what stays depend only on the data of the nodes of `cs`.
proof fn lemma_same_texts(t: Tree, u: Tree, cs: Seq<usize>, k: int)
    requires
        forall|j: int| 0 <= j < cs.len() ==> u.data(#[trigger] cs[j] as int) == t.data(cs[j] as int),
    ensures
        run_text(u, cs, k) == run_text(t, cs, k),
        0 <= k < cs.len() ==> stays(u, cs, k) == stays(t, cs, k),
    decreases k + 1,
{
    if k >= 0 && k < cs.len() {
        lemma_same_texts(t, u, cs, k - 1);
        assert(u.data(cs[k] as int) == t.data(cs[k] as int));
        if k + 1 < cs.len() {
            assert(u.data(cs[k + 1] as int) == t.data(cs[k + 1] as int));
        }
    }
}

proof fn lemma_same_kept(t: Tree, u: Tree, cs: Seq<usize>, k: int)
    requires
        forall|j: int| 0 <= j < cs.len() ==> u.data(#[trigger] cs[j] as int) == t.data(cs[j] as int),
        k <= cs.len(),
    ensures
        kept_prefix(u, cs, k) == kept_prefix(t, cs, k),
    decreases k,
{
    if k > 0 {
        lemma_same_kept(t, u, cs, k - 1);
        lemma_same_texts(t, u, cs, k - 1);
    }
}

proof fn lemma_outer_step(t0: Tree, cur: Tree, next: Tree, x: int, y: int)
    requires
        t0.wf(),
        t0.len() <= usize::MAX,
        0 <= y < t0.len(),
        merged_below(t0, cur, x, y),
        reached(t0, x, y) ==> texts_merged(cur, next, y),
        !reached(t0, x, y) ==> next == cur,
    ensures
        merged_below(t0, next, x, y + 1),
{
    if reached(t0, x, y) {
        let cs = t0.children(y);
        lemma_kids(t0, y);
        lemma_kids(cur, y);
        assert(cur.children(y) == cs);
        assert forall|j: int| 0 <= j < cs.len() implies cur.data(#[trigger] cs[j] as int) == t0.data(cs[j] as int) by {
            let m = cs[j] as int;
            assert(t0.parent(m) == Some(y as usize));
        }
        assert forall|k: int| #![trigger run_text(cur, cs, k)] 0 <= k < cs.len() implies
            run_text(cur, cs, k) == run_text(t0, cs, k) && stays(cur, cs, k) == stays(t0, cs, k) by {
            lemma_same_texts(t0, cur, cs, k);
        }
        lemma_same_kept(t0, cur, cs, cs.len() as int);
        assert forall|m: int| 0 <= m < t0.len() && t0.parent(m) == Some(y as usize) implies
            #[trigger] cur.index(m) == t0.index(m) && cur.parent(m) == Some(y as usize) by {
            lemma_child_at_index(t0, m);
        }
        assert forall|m: int| 0 <= m < t0.len() && cur.parent(m) == Some(y as usize) implies
            #[trigger] t0.parent(m) == Some(y as usize) by {}
        assert forall|m: int| 0 <= m < t0.len() implies #[trigger] next.parent(m) == (
            if t0.parent(m) matches Some(p) && p < y + 1 && reached(t0, x, p as int) && !stays(t0, t0.children(p as int), t0.index(m)) {
                None
            } else {
                t0.parent(m)
            }) by {
            let cp = cur.parent(m);
            if t0.parent(m) == Some(y as usize) {
                lemma_same_texts(t0, cur, cs, t0.index(m));
                lemma_child_at_index(t0, m);
            }
        }
        assert forall|i: int| 0 <= i < t0.len() implies (
            if t0.parent(i) matches Some(p) && p < y + 1 && reached(t0, x, p as int) && is_text_node(t0, i as usize)
                && stays(t0, t0.children(p as int), t0.index(i)) {
                (#[trigger] next.data(i)) matches NodeData::Text { contents } && contents@ == run_text(t0, t0.children(t0.parent(i).unwrap() as int), t0.index(i))
            } else {
                next.data(i) == t0.data(i)
            }) by {
            let cd = cur.data(i);
            let cp = cur.parent(i);
            if t0.parent(i) == Some(y as usize) {
                lemma_same_texts(t0, cur, cs, t0.index(i));
                lemma_child_at_index(t0, i);
            }
        }
        assert forall|q: int| 0 <= q < t0.len() implies #[trigger] next.children(q) == (
            if q < y + 1 && reached(t0, x, q) { kept(t0, t0.children(q)) } else { t0.children(q) }) by {
            let cc = cur.children(q);
        }
    } else {
        assert forall|m: int| 0 <= m < t0.len() implies #[trigger] next.parent(m) == (
            if t0.parent(m) matches Some(p) && p < y + 1 && reached(t0, x, p as int) && !stays(t0, t0.children(p as int), t0.index(m)) {
                None
            } else {
                t0.parent(m)
            }) by {
            let cp = cur.parent(m);
        }
        assert forall|i: int| 0 <= i < t0.len() implies (
            if t0.parent(i) matches Some(p) && p < y + 1 && reached(t0, x, p as int) && is_text_node(t0, i as usize)
                && stays(t0, t0.children(p as int), t0.index(i)) {
                (#[trigger] next.data(i)) matches NodeData::Text { contents } && contents@ == run_text(t0, t0.children(t0.parent(i).unwrap() as int), t0.index(i))
            } else {
                next.data(i) == t0.data(i)
            }) by {
            let cd = cur.data(i);
        }
        assert forall|q: int| 0 <= q < t0.len() implies #[trigger] next.children(q) == (
            if q < y + 1 && reached(t0, x, q) { kept(t0, t0.children(q)) } else { t0.children(q) }) by {
            let cc = cur.children(q);
        }
    }
}

/// Normalizing a node out of the tree reaches no node of it.
pub proof fn lemma_unreached(t: Tree, x: int, q: int)
    requires
        t.wf(),
        !(0 <= x < t.len()),
        0 <= q < t.len(),
    ensures
        !reached(t, x, q),
    decreases t.depth@[q],
{
    assert(node_ok(t.nodes@, t.chains@, t.pos@, t.depth@, q));
    if let Some(p) = t.parent(q) {
        if t.depth@[p as int] < t.depth@[q] {
            lemma_unreached(t, x, p as int);
        }
    }
}

/// What stays of the first `m` children opens what stays of the first `n`, `m <= n`.
proof fn lemma_kept_prefix_grows(t: Tree, cs: Seq<usize>, m: int, n: int)
    requires
        0 <= m <= n,
    ensures
        kept_prefix(t, cs, m).len() <= kept_prefix(t, cs, n).len(),
        forall|j: int| 0 <= j < kept_prefix(t, cs, m).len() ==> #[trigger] kept_prefix(t, cs, n)[j] == kept_prefix(t, cs, m)[j],
    decreases n - m,
{
    if m < n {
        lemma_kept_prefix_grows(t, cs, m, n - 1);
    }
}

/// Each node that stays comes from a child that stays, with as many staying children before it.
proof fn lemma_kept_origin(t: Tree, cs: Seq<usize>, n: int, j: int)
    requires
        0 <= j < kept_prefix(t, cs, n).len(),
    ensures
        exists|k: int| 0 <= k < n && stays(t, cs, k) && #[trigger] kept_prefix(t, cs, k).len() == j
            && kept_prefix(t, cs, n)[j] == cs[k],
    decreases n,
{
    if n > 0 {
        if j < kept_prefix(t, cs, n - 1).len() {
            lemma_kept_origin(t, cs, n - 1, j);
            let k = choose|k: int| 0 <= k < n - 1 && stays(t, cs, k) && #[trigger] kept_prefix(t, cs, k).len() == j
                && kept_prefix(t, cs, n - 1)[j] == cs[k];
            assert(kept_prefix(t, cs, k).len() == j);
        } else {
            assert(kept_prefix(t, cs, n - 1).len() == j);
        }
    }
}

/// Normalization leaves, in each node that it reaches, no empty text child and no
/// two text children side by side.
pub proof fn lemma_normalized_texts(t: Tree, u: Tree, x: int, q: int, j: int)
    requires
        t.wf(),
        t.len() <= usize::MAX,
        normalized(t, u, x),
        0 <= q < t.len(),
        reached(t, x, q),
        0 <= j < u.children(q).len(),
        is_text_node(u, u.children(q)[j]),
    ensures
        text_contents_of(u, u.children(q)[j]).len() > 0,
        j + 1 < u.children(q).len() ==> !is_text_node(u, u.children(q)[j + 1]),
{
    let cs = t.children(q);
    lemma_kids(t, q);
    assert(u.children(q) == kept(t, cs));
    lemma_kept_origin(t, cs, cs.len() as int, j);
    let k = choose|k: int| 0 <= k < cs.len() && stays(t, cs, k) && #[trigger] kept_prefix(t, cs, k).len() == j
        && kept_prefix(t, cs, cs.len() as int)[j] == cs[k];
    let m = cs[k] as int;
    assert(t.parent(m) == Some(q as usize));
    assert(t.index(m) == k);
    assert(u.children(q)[j] == m as usize);
    let d = u.data(m);
    assert(is_text_node(t, m as usize));
    assert(run_text(t, cs, k).len() > 0);
    assert(t.children(t.parent(m).unwrap() as int) == cs);
    if j + 1 < u.children(q).len() {
        assert(k + 1 < cs.len()) by {
            if k + 1 >= cs.len() {
                lemma_kept_prefix_grows(t, cs, k + 1, cs.len() as int);
                assert(kept_prefix(t, cs, k + 1).len() == j + 1);
            }
        }
        let m2 = cs[k + 1] as int;
        assert(!is_text_node(t, m2 as usize));
        assert(stays(t, cs, k + 1));
        assert(kept_prefix(t, cs, k + 1) == kept_prefix(t, cs, k) + seq![cs[k]]);
        assert(kept_prefix(t, cs, k + 2) == kept_prefix(t, cs, k + 1) + seq![cs[k + 1]]);
        assert(kept_prefix(t, cs, k + 2)[j] == cs[k]);
        lemma_kept_prefix_grows(t, cs, k + 2, cs.len() as int);
        assert(kept_prefix(t, cs, k + 2)[j + 1] == cs[k + 1]);
        assert(t.parent(m2) == Some(q as usize));
        let d2 = u.data(m2);
    }
}

impl Tree {
    /// Merges the text children of node `y`: each run of adjacent text children is
    /// left as its last node, which gets the run's text, or goes when that text is empty.
    fn merge_text_children(&mut self, y: usize)
        requires
            old(self).wf(),
            y < old(self).len(),
        ensures
            texts_merged(*old(self), *final(self), y as int),
    {
        let ghost t0 = *self;
        let n = self.nodes.len();
        let kids = TreeNodeOps::child_ids_of(self, &NodeId::new(y));
        let ghost cs = ids_of(kids@);
        proof {
            lemma_kids(t0, y as int);
            assert(kept_prefix(t0, cs, 0) + cs.skip(0) =~= cs);
        }
        let mut acc = String::new();
        let mut k: usize = 0;
        while k < kids.len()
            invariant
                t0.wf(),
                y < t0.len(),
                t0.len() == n,
                cs == ids_of(kids@),
                cs == t0.children(y as int),
                k <= cs.len(),
                self.wf(),
                self.len() == t0.len(),
                forall|j: int| 0 <= j < cs.len() ==> {
                    let m = #[trigger] cs[j];
                    &&& 0 <= m < t0.len()
                    &&& t0.parent(m as int) == Some(y)
                    &&& t0.index(m as int) == j
                },
                self.children(y as int) == kept_prefix(t0, cs, k as int) + cs.skip(k as int),
                forall|q: int| 0 <= q < t0.len() && q != y ==> #[trigger] self.children(q) == t0.children(q),
                forall|m: int| 0 <= m < t0.len() ==> #[trigger] self.parent(m) == (
                    if t0.parent(m) == Some(y) && t0.index(m) < k && !stays(t0, cs, t0.index(m)) { None } else { t0.parent(m) }),
                forall|i: int| 0 <= i < t0.len() ==> (if t0.parent(i) == Some(y) && t0.index(i) < k && is_text_node(t0, i as usize) && stays(t0, cs, t0.index(i)) {
                    (#[trigger] self.data(i)) matches NodeData::Text { contents } && contents@ == run_text(t0, cs, t0.index(i))
                } else {
                    self.data(i) == t0.data(i)
                }),
                acc@ == (if k < cs.len() && is_text_node(t0, cs[k as int]) { run_text(t0, cs, k - 1) } else { Seq::<char>::empty() }),
            decreases kids.len() - k,
        {
            let c = kids[k];
            proof {
                assert(cs[k as int] == c.value);
                assert(self.data(c.value as int) == t0.data(c.value as int));
            }
            let is_text = match &self.nodes[c.value].data {
                NodeData::Text { .. } => true,
                _ => false,
            };
            if is_text {
                let ghost before = acc@;
                match &self.nodes[c.value].data {
                    NodeData::Text { contents } => push_str(&mut acc, contents.as_str()),
                    _ => {},
                }
                let next_is_text = if k + 1 < kids.len() {
                    let d = kids[k + 1];
                    proof {
                        assert(cs[k + 1] == d.value);
                        assert(self.data(d.value as int) == t0.data(d.value as int));
                    }
                    match &self.nodes[d.value].data {
                        NodeData::Text { .. } => true,
                        _ => false,
                    }
                } else {
                    false
                };
                proof {
                    assert(acc@ == run_text(t0, cs, k as int));
                }
                let ghost cur = *self;
                proof {
                    lemma_kids(cur, y as int);
                    assert(cs.skip(k as int) =~= seq![c.value] + cs.skip(k + 1));
                    assert(cur.children(y as int)[kept_prefix(t0, cs, k as int).len() as int] == c.value);
                    assert(cur.parent(c.value as int) == Some(y));
                    assert forall|m: int| 0 <= m < t0.len() && t0.parent(m) == Some(y) && #[trigger] t0.index(m) == k implies m == c.value by {
                        lemma_child_at_index(t0, m);
                    }
                }
                if !next_is_text && !acc.as_str().is_empty() {
                    TreeNodeOps::set_text(self, &c, acc.as_str());
                    proof {
                        assert(stays(t0, cs, k as int));
                        assert(kept_prefix(t0, cs, k + 1) == kept_prefix(t0, cs, k as int) + seq![c.value]);
                        assert(self.children(y as int) =~= kept_prefix(t0, cs, k + 1) + cs.skip(k + 1));
                        assert forall|m: int| 0 <= m < t0.len() implies #[trigger] self.parent(m) == (
                            if t0.parent(m) == Some(y) && t0.index(m) < k + 1 && !stays(t0, cs, t0.index(m)) { None } else { t0.parent(m) }) by {
                            assert(self.parent(m) == cur.parent(m));
                        }
                        assert forall|i: int| 0 <= i < t0.len() implies (if t0.parent(i) == Some(y) && t0.index(i) < k + 1 && is_text_node(t0, i as usize) && stays(t0, cs, t0.index(i)) {
                            (#[trigger] self.data(i)) matches NodeData::Text { contents } && contents@ == run_text(t0, cs, t0.index(i))
                        } else {
                            self.data(i) == t0.data(i)
                        }) by {
                            if i != c.value {
                                assert(self.data(i) == cur.data(i));
                            }
                        }
                    }
                    acc = String::new();
                } else {
                    self.remove_from_parent(&c);
                    proof {
                        assert(!stays(t0, cs, k as int));
                        assert(kept_prefix(t0, cs, k + 1) == kept_prefix(t0, cs, k as int));
                        assert(cur.index(c.value as int) == kept_prefix(t0, cs, k as int).len());
                        assert(self.children(y as int) =~= kept_prefix(t0, cs, k + 1) + cs.skip(k + 1));
                        assert forall|q: int| 0 <= q < t0.len() && q != y implies #[trigger] self.children(q) == t0.children(q) by {
                            assert(self.children(q) == cur.children(q));
                        }
                        assert forall|m: int| 0 <= m < t0.len() implies #[trigger] self.parent(m) == (
                            if t0.parent(m) == Some(y) && t0.index(m) < k + 1 && !stays(t0, cs, t0.index(m)) { None } else { t0.parent(m) }) by {
                            if m != c.value {
                                assert(self.parent(m) == cur.parent(m));
                            }
                        }
                        assert forall|i: int| 0 <= i < t0.len() implies (if t0.parent(i) == Some(y) && t0.index(i) < k + 1 && is_text_node(t0, i as usize) && stays(t0, cs, t0.index(i)) {
                            (#[trigger] self.data(i)) matches NodeData::Text { contents } && contents@ == run_text(t0, cs, t0.index(i))
                        } else {
                            self.data(i) == t0.data(i)
                        }) by {
                            assert(self.nodes@[i].data == cur.nodes@[i].data);
                            assert(self.data(i) == cur.data(i));
                            if t0.parent(i) == Some(y) && t0.index(i) == k {
                                assert(i == c.value);
                            }
                        }
                    }
                }
            } else {
                proof {
                    assert(stays(t0, cs, k as int));
                    assert(kept_prefix(t0, cs, k + 1) == kept_prefix(t0, cs, k as int) + seq![c.value]);
                    assert(cs.skip(k as int) =~= seq![c.value] + cs.skip(k + 1));
                    assert(self.children(y as int) =~= kept_prefix(t0, cs, k + 1) + cs.skip(k + 1));
                    assert forall|m: int| 0 <= m < t0.len() && t0.parent(m) == Some(y) && #[trigger] t0.index(m) == k implies m == c.value by {
                        lemma_child_at_index(t0, m);
                    }
                }
            }
            k = k + 1;
        }
        proof {
            assert forall|m: int| 0 <= m < t0.len() && t0.parent(m) == Some(y) implies #[trigger] t0.index(m) < k by {
                lemma_child_at_index(t0, m);
            }
            assert(cs.skip(k as int) =~= Seq::<usize>::empty());
            assert(kept_prefix(t0, cs, k as int) + cs.skip(k as int) =~= kept(t0, cs));
        }
    }

    /// Whether normalizing node `x` reaches node `y` (see [`reached`]).
    pub fn reached_from(&self, x: usize, y: usize) -> (r: bool)
        requires
            self.wf(),
            x < self.len(),
            y < self.len(),
        ensures
            r == reached(*self, x as int, y as int),
    {
        let mut cur: usize = y;
        loop
            invariant
                self.wf(),
                cur < self.nodes@.len(),
                x < self.nodes@.len(),
                reached(*self, x as int, y as int) == reached(*self, x as int, cur as int),
            decreases self.depth@[cur as int],
        {
            if cur == x {
                return true;
            }
            if !self.nodes[cur].may_have_children() {
                return false;
            }
            proof {
                assert(node_ok(self.nodes@, self.chains@, self.pos@, self.depth@, cur as int));
            }
            match self.nodes[cur].parent {
                Some(p) => {
                    cur = p.value;
                },
                None => {
                    return false;
                },
            }
        }
    }

    /// Merges adjacent text nodes and removes empty text nodes, in node `id` and in
    /// every node below it that may have children (see [`normalized`]).
    pub fn normalize_of(&mut self, id: &NodeId)
        requires
            old(self).wf(),
        ensures
            normalized(*old(self), *final(self), id.value as int),
    {
        let ghost t0 = *self;
        let n = self.nodes.len();
        if id.value >= n {
            proof {
                assert forall|q: int| 0 <= q < t0.len() implies !reached(t0, id.value as int, q) by {
                    lemma_unreached(t0, id.value as int, q);
                }
            }
            return;
        }
        let x = id.value;
        let mut reach: Vec<bool> = Vec::new();
        let mut j: usize = 0;
        while j < n
            invariant
                *self == t0,
                t0.wf(),
                n == t0.len(),
                x < n,
                j <= n,
                reach@.len() == j,
                forall|i: int| 0 <= i < j ==> #[trigger] reach@[i] == reached(t0, x as int, i),
            decreases n - j,
        {
            let r = self.reached_from(x, j);
            reach.push(r);
            j = j + 1;
        }
        let mut y: usize = 0;
        while y < n
            invariant
                t0.wf(),
                n == t0.len(),
                x < n,
                y <= n,
                reach@.len() == n,
                forall|i: int| 0 <= i < n ==> #[trigger] reach@[i] == reached(t0, x as int, i),
                merged_below(t0, *self, x as int, y as int),
            decreases n - y,
        {
            let ghost cur = *self;
            if reach[y] {
                self.merge_text_children(y);
            }
            proof {
                lemma_outer_step(t0, cur, *self, x as int, y as int);
            }
            y = y + 1;
        }
    }

    /// Normalizes the whole tree (see [`Tree::normalize_of`]).
    pub fn normalize(&mut self)
        requires
            old(self).wf(),
        ensures
            normalized(*old(self), *final(self), 0),
    {
        self.normalize_of(&NodeId::new(0));
    }
}

impl Document {
    /// Merges adjacent text nodes and removes empty text nodes in the whole document.
    pub fn normalize(&mut self)
        requires
            old(self).tree.wf(),
        ensures
            normalized(old(self).tree, final(self).tree, 0),
            final(self).errors == old(self).errors,
            final(self).quirks_mode == old(self).quirks_mode,
    {
        self.tree.normalize();
    }
}

/// What the first `n` children of `cs` give of text once merged: the text of those that
/// stay, then that of a run of text nodes still open at index `n - 1`.
proof fn lemma_kept_text(t: Tree, u: Tree, x: int, q: int, n: int)
    requires
        t.wf(),
        normalized(t, u, x),
        0 <= q < t.len(),
        reached(t, x, q),
        t.len() <= usize::MAX,
        0 <= n <= t.children(q).len(),
    ensures
        texts(t, t.children(q).take(n)) == texts(u, kept_prefix(t, t.children(q), n))
            + (if n > 0 && !stays(t, t.children(q), n - 1) { run_text(t, t.children(q), n - 1) } else { Seq::empty() }),
    decreases n,
{
    let cs = t.children(q);
    if n == 0 {
        assert(cs.take(0) =~= Seq::<usize>::empty());
        assert(kept_prefix(t, cs, 0) == Seq::<usize>::empty());
    } else {
        lemma_kept_text(t, u, x, q, n - 1);
        lemma_kids(t, q);
        let c = cs[n - 1];
        assert(cs.take(n).drop_last() =~= cs.take(n - 1));
        assert(cs.take(n).last() == c);
        let kp = kept_prefix(t, cs, n - 1);
        let pend = if n - 1 > 0 && !stays(t, cs, n - 2) { run_text(t, cs, n - 2) } else { Seq::<char>::empty() };
        assert(t.parent(c as int) == Some(q as usize));
        assert(t.index(c as int) == n - 1);
        if n - 1 > 0 {
            if is_text_node(t, cs[n - 2]) && !is_text_node(t, c) && !stays(t, cs, n - 2) {
                assert(run_text(t, cs, n - 2).len() == 0);
            }
            if !is_text_node(t, cs[n - 2]) {
                assert(run_text(t, cs, n - 2) == Seq::<char>::empty());
            }
        }
        if stays(t, cs, n - 1) {
            let k2 = kp + seq![c];
            assert(kept_prefix(t, cs, n) == k2);
            assert(k2.drop_last() =~= kp);
            assert(k2.last() == c);
            if is_text_node(t, c) {
                assert(merged_below(t, u, x, t.len() as int));
                assert(t.parent(c as int).unwrap() as int == q);
                assert(0 <= c < t.len());
                let d = u.data(c as int);
                assert(d matches NodeData::Text { contents } && contents@ == run_text(t, cs, n - 1));
                assert(texts(u, k2) == texts(u, kp) + run_text(t, cs, n - 1));
            } else {
                assert(u.data(c as int) == t.data(c as int));
                assert(pend == Seq::<char>::empty());
                assert(texts(t, cs.take(n)) =~= texts(t, cs.take(n - 1)));
                assert(texts(u, k2) =~= texts(u, kp));
            }
        } else {
            assert(kept_prefix(t, cs, n) =~= kp);
            assert(is_text_node(t, c));
        }
    }
}

/// Normalizing keeps the text of the children of each node that it reaches: their text
/// contents, one after the other, are the same before and after.
pub proof fn law_normalize_keeps_children_text(t: Tree, u: Tree, x: int, q: int)
    requires
        t.wf(),
        normalized(t, u, x),
        0 <= q < t.len(),
        reached(t, x, q),
        t.len() <= usize::MAX,
    ensures
        texts(u, u.children(q)) == texts(t, t.children(q)),
{
    let cs = t.children(q);
    lemma_kept_text(t, u, x, q, cs.len() as int);
    assert(cs.take(cs.len() as int) =~= cs);
    assert(u.children(q) == kept(t, cs));
    if cs.len() > 0 && !stays(t, cs, cs.len() - 1) {
        assert(run_text(t, cs, cs.len() - 1).len() == 0);
    }
    assert(texts(t, cs) =~= texts(u, kept(t, cs)));
}

/// No text node of `t` has children.
pub open spec fn text_leaves(t: Tree) -> bool {
    forall|i: int| 0 <= i < t.len() && is_text_node(t, i as usize) ==> (#[trigger] t.children(i)).len() == 0
}

/// A walk over the first `k` nodes of two sequences that agree on them is the same walk.
proof fn lemma_forest_prefix(t: Tree, cs: Seq<usize>, cs2: Seq<usize>, k: int, g: nat)
    requires
        0 <= k <= cs.len(),
        k <= cs2.len(),
        forall|j: int| 0 <= j < k ==> cs[j] == cs2[j],
    ensures
        forest(t, cs, k, g) == forest(t, cs2, k, g),
    decreases k,
{
    if k > 0 {
        lemma_forest_prefix(t, cs, cs2, k - 1, g);
        assert(cs[k - 1] == cs2[k - 1]);
    }
}

/// A node that normalizing `x` reaches lies no higher than `x`.
proof fn lemma_reached_depth(t: Tree, x: int, y: int)
    requires
        t.wf(),
        0 <= y < t.len(),
        reached(t, x, y),
    ensures
        t.depth@[y] >= t.depth@[x],
    decreases t.depth@[y],
{
    if y != x {
        assert(node_ok(t.nodes@, t.chains@, t.pos@, t.depth@, y));
        let p = t.parent(y)->0;
        lemma_reached_depth(t, x, p as int);
    }
}

/// The text below a node whose data normalizing keeps.
proof fn lemma_sub_text(t: Tree, u: Tree, x: int, y: int, f: nat)
    requires
        t.wf(),
        normalized(t, u, x),
        t.len() <= usize::MAX,
        text_leaves(t),
        0 <= x < t.len(),
        0 <= y < t.len(),
        u.data(y) == t.data(y),
    ensures
        texts(u, preorder(u, y as usize, f)) == texts(t, preorder(t, y as usize, f)),
    decreases f, 0int, 0int,
{
    let one = seq![y as usize];
    assert(one.drop_last() =~= Seq::<usize>::empty());
    assert(one.last() as int == y);
    assert(texts(t, one) == texts(t, Seq::<usize>::empty()) + text_contents(t.data(y)));
    assert(texts(u, one) == texts(u, Seq::<usize>::empty()) + text_contents(u.data(y)));
    assert(texts(u, one) == texts(t, one));
    if f > 0 {
        let g = (f - 1) as nat;
        let cs = t.children(y);
        lemma_texts_append(t, one, forest(t, cs, cs.len() as int, g));
        lemma_texts_append(u, one, forest(u, u.children(y), u.children(y).len() as int, g));
        if reached(t, x, y) {
            assert(u.children(y) == kept(t, cs));
            lemma_forest_kept(t, u, x, y, cs.len() as int, g);
            if cs.len() > 0 && !stays(t, cs, cs.len() - 1) {
                assert(run_text(t, cs, cs.len() - 1).len() == 0);
            }
            assert(texts(t, forest(t, cs, cs.len() as int, g)) =~= texts(u, forest(u, u.children(y), u.children(y).len() as int, g)));
        } else {
            assert(u.children(y) == cs);
            lemma_forest_same(t, u, x, y, cs.len() as int, g);
        }
    }
}

/// The text of the walks below the children of a node that normalizing does not reach.
proof fn lemma_forest_same(t: Tree, u: Tree, x: int, y: int, k: int, g: nat)
    requires
        t.wf(),
        normalized(t, u, x),
        t.len() <= usize::MAX,
        text_leaves(t),
        0 <= x < t.len(),
        0 <= y < t.len(),
        !reached(t, x, y),
        0 <= k <= t.children(y).len(),
    ensures
        texts(u, forest(u, t.children(y), k, g)) == texts(t, forest(t, t.children(y), k, g)),
    decreases g, 1int, k,
{
    if k > 0 {
        let cs = t.children(y);
        lemma_forest_same(t, u, x, y, k - 1, g);
        lemma_kids(t, y);
        let c = cs[k - 1];
        assert(t.parent(c as int) == Some(y as usize));
        assert(t.parent(c as int).unwrap() as int == y);
        assert(merged_below(t, u, x, t.len() as int));
        let d = u.data(c as int);
        assert(d == t.data(c as int));
        lemma_sub_text(t, u, x, c as int, g);
        lemma_texts_append(t, forest(t, cs, k - 1, g), preorder(t, c, g));
        lemma_texts_append(u, forest(u, cs, k - 1, g), preorder(u, c, g));
    }
}

/// The text of the walks below the first `n` children of a node that normalizing
/// reaches: that of the children that stay, then that of a run still open.
proof fn lemma_forest_kept(t: Tree, u: Tree, x: int, y: int, n: int, g: nat)
    requires
        t.wf(),
        normalized(t, u, x),
        t.len() <= usize::MAX,
        text_leaves(t),
        0 <= x < t.len(),
        0 <= y < t.len(),
        reached(t, x, y),
        0 <= n <= t.children(y).len(),
    ensures
        texts(t, forest(t, t.children(y), n, g)) == texts(u, forest(u, kept_prefix(t, t.children(y), n), kept_prefix(t, t.children(y), n).len() as int, g))
            + (if n > 0 && !stays(t, t.children(y), n - 1) { run_text(t, t.children(y), n - 1) } else { Seq::empty() }),
    decreases g, 1int, n,
{
    let cs = t.children(y);
    if n == 0 {
        assert(kept_prefix(t, cs, 0) == Seq::<usize>::empty());
    } else {
        lemma_forest_kept(t, u, x, y, n - 1, g);
        lemma_kids(t, y);
        let c = cs[n - 1];
        let kp = kept_prefix(t, cs, n - 1);
        let fu = forest(u, kp, kp.len() as int, g);
        let pend = if n - 1 > 0 && !stays(t, cs, n - 2) { run_text(t, cs, n - 2) } else { Seq::<char>::empty() };
        assert(t.parent(c as int) == Some(y as usize));
        assert(t.parent(c as int).unwrap() as int == y);
        assert(t.index(c as int) == n - 1);
        assert(merged_below(t, u, x, t.len() as int));
        lemma_texts_append(t, forest(t, cs, n - 1, g), preorder(t, c, g));
        if n - 1 > 0 {
            if is_text_node(t, cs[n - 2]) && !is_text_node(t, c) && !stays(t, cs, n - 2) {
                assert(run_text(t, cs, n - 2).len() == 0);
            }
            if !is_text_node(t, cs[n - 2]) {
                assert(run_text(t, cs, n - 2) == Seq::<char>::empty());
            }
        }
        if is_text_node(t, c) {
            assert(t.children(c as int).len() == 0);
            lemma_reached_depth(t, x, y);
            assert(node_ok(t.nodes@, t.chains@, t.pos@, t.depth@, c as int));
            assert(!reached(t, x, c as int));
            assert(u.children(c as int) == t.children(c as int));
            let one = seq![c];
            assert(one.drop_last() =~= Seq::<usize>::empty());
            assert(forest(t, t.children(c as int), 0, (g - 1) as nat) == Seq::<usize>::empty());
            assert(preorder(t, c, g) =~= one);
            assert(preorder(u, c, g) =~= one);
            assert(texts(t, one) == texts(t, Seq::<usize>::empty()) + text_contents(t.data(c as int)));
            assert(texts(u, one) == texts(u, Seq::<usize>::empty()) + text_contents(u.data(c as int)));
            assert(texts(t, one) =~= text_contents_of(t, c));
            if stays(t, cs, n - 1) {
                let k2 = kp.push(c);
                assert(kept_prefix(t, cs, n) =~= k2);
                lemma_forest_prefix(u, k2, kp, kp.len() as int, g);
                assert(forest(u, k2, k2.len() as int, g) == fu + preorder(u, c, g));
                lemma_texts_append(u, fu, one);
                let d = u.data(c as int);
                assert(d matches NodeData::Text { contents } && contents@ == run_text(t, cs, n - 1));
                assert(texts(u, one) == run_text(t, cs, n - 1));
            } else {
                assert(kept_prefix(t, cs, n) =~= kp);
            }
        } else {
            assert(stays(t, cs, n - 1));
            let k2 = kp.push(c);
            assert(kept_prefix(t, cs, n) =~= k2);
            lemma_forest_prefix(u, k2, kp, kp.len() as int, g);
            assert(forest(u, k2, k2.len() as int, g) == fu + preorder(u, c, g));
            lemma_texts_append(u, fu, preorder(u, c, g));
            let d = u.data(c as int);
            assert(d == t.data(c as int));
            lemma_sub_text(t, u, x, c as int, g);
            assert(pend == Seq::<char>::empty());
        }
    }
}

/// Normalizing a node keeps its text: the text contents of the nodes of its subtree,
/// in document order, are the same before and after, in a tree whose text nodes have
/// no children.
pub proof fn law_normalize_keeps_text(t: Tree, u: Tree, x: int)
    requires
        t.wf(),
        normalized(t, u, x),
        t.len() <= usize::MAX,
        text_leaves(t),
        0 <= x < t.len(),
    ensures
        texts(u, subtree(u, x as usize)) == texts(t, subtree(t, x as usize)),
{
    assert(merged_below(t, u, x, t.len() as int));
    assert(node_ok(t.nodes@, t.chains@, t.pos@, t.depth@, x));
    if let Some(p) = t.parent(x) {
        if reached(t, x, p as int) {
            lemma_reached_depth(t, x, p as int);
        }
    }
    let d = u.data(x);
    assert(d == t.data(x));
    lemma_sub_text(t, u, x, x, t.len());
}

} // verus!
