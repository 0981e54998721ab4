//! Stripping elements: the elements with given names leave the tree below a node,
//! and their children take their place.
use vstd::prelude::*;
use crate::node::{NodeId, NodeData};
use crate::tree::{Tree, node_ok};
use crate::ops::detached;
use crate::chains::{lemma_chain_members, chain_from, chain_before, can_unwrap};
use crate::normalize::{reached, lemma_kids, lemma_child_at_index, lemma_unreached};
use crate::text::str_eq;

verus! {

/// The names listed in `names`, as text.
pub open spec fn name_seqs(names: Seq<&str>) -> Seq<Seq<char>> {
    names.map_values(|n: &str| n@)
}

/// Node `c` is stripped when node `x` strips the names `names`: an element below `x`
/// with one of the names, that the walk from `x` through nodes that may have
/// children reaches.
pub open spec fn stripped(t: Tree, x: int, names: Seq<Seq<char>>, c: int) -> bool {
    &&& c != x
    &&& 0 <= c < t.len()
    &&& reached(t, x, c)
    &&& t.data(c) matches NodeData::Element(e) && names.contains(e.name.local@)
}

/// The nearest ancestor of `m` that is not one of the stripped nodes with an id below
/// `k`; `None` when there is none.
pub open spec fn lift(t: Tree, x: int, names: Seq<Seq<char>>, k: int, m: int) -> Option<usize>
    decreases t.depth@[m],
{
    match t.parent(m) {
        Some(p) => if p < k && stripped(t, x, names, p as int) && t.depth@[p as int] < t.depth@[m] {
            lift(t, x, names, k, p as int)
        } else {
            Some(p)
        },
        None => None,
    }
}

/// `u` is `t` once the stripped nodes with an id below `k` have given their place to
/// their children: they have no parent, each other node hangs below its nearest
/// ancestor that is not one of them, and no data changes.
pub open spec fn stripped_below(t: Tree, u: Tree, x: int, names: Seq<Seq<char>>, k: int) -> bool {
    &&& u.wf()
    &&& u.same_data(&t)
    &&& forall|m: int| 0 <= m < t.len() ==> #[trigger] u.parent(m) == (
        if m < k && stripped(t, x, names, m) { None } else { lift(t, x, names, k, m) })
}

/// The lifted parent is a strict ancestor: it lies higher up.
proof fn lemma_lift_higher(t: Tree, x: int, names: Seq<Seq<char>>, k: int, m: int)
    requires
        t.len() <= usize::MAX,
        t.wf(),
        0 <= m < t.len(),
    ensures
        lift(t, x, names, k, m) matches Some(a) ==> 0 <= a < t.len() && t.depth@[a as int] < t.depth@[m],
    decreases t.depth@[m],
{
    assert(node_ok(t.nodes@, t.chains@, t.pos@, t.depth@, m));
    if let Some(p) = t.parent(m) {
        if p < k && stripped(t, x, names, p as int) && t.depth@[p as int] < t.depth@[m] {
            lemma_lift_higher(t, x, names, k, p as int);
        }
    }
}

/// A node below `x` that the walk reaches keeps an ancestor that is not stripped.
proof fn lemma_lift_some(t: Tree, x: int, names: Seq<Seq<char>>, k: int, m: int)
    requires
        t.len() <= usize::MAX,
        t.wf(),
        0 <= m < t.len(),
        m != x,
        reached(t, x, m),
    ensures
        lift(t, x, names, k, m) is Some,
    decreases t.depth@[m],
{
    assert(node_ok(t.nodes@, t.chains@, t.pos@, t.depth@, m));
    if let Some(p) = t.parent(m) {
        if p < k && stripped(t, x, names, p as int) && t.depth@[p as int] < t.depth@[m] {
            lemma_lift_some(t, x, names, k, p as int);
        }
    }
}

/// Stripping one more node `k` lifts the nodes that hung below it to its own lifted parent.
proof fn lemma_lift_step(t: Tree, x: int, names: Seq<Seq<char>>, k: int, m: int)
    requires
        t.len() <= usize::MAX,
        t.wf(),
        0 <= m < t.len(),
        0 <= k < t.len(),
    ensures
        lift(t, x, names, k + 1, m) == (if stripped(t, x, names, k) && lift(t, x, names, k, m) == Some(k as usize) {
            lift(t, x, names, k, k)
        } else {
            lift(t, x, names, k, m)
        }),
    decreases t.depth@[m],
{
    assert(node_ok(t.nodes@, t.chains@, t.pos@, t.depth@, m));
    if let Some(p) = t.parent(m) {
        assert(t.depth@[p as int] < t.depth@[m]);
        if p < k && stripped(t, x, names, p as int) {
            lemma_lift_step(t, x, names, k, p as int);
        } else if p == k && stripped(t, x, names, k) {
            lemma_lift_step(t, x, names, k, k);
            lemma_lift_higher(t, x, names, k, k);
            assert(lift(t, x, names, k + 1, m) == lift(t, x, names, k + 1, k));
            assert(lift(t, x, names, k, m) == Some(k as usize));
        } else {
            assert(lift(t, x, names, k + 1, m) == Some(p));
            assert(lift(t, x, names, k, m) == Some(p));
        }
    }
}

/// The lifted parent is never one of the nodes stripped so far.
proof fn lemma_lift_kept(t: Tree, x: int, names: Seq<Seq<char>>, k: int, m: int)
    requires
        t.len() <= usize::MAX,
        t.wf(),
        0 <= m < t.len(),
    ensures
        lift(t, x, names, k, m) matches Some(a) ==> !(a < k && stripped(t, x, names, a as int)),
    decreases t.depth@[m],
{
    assert(node_ok(t.nodes@, t.chains@, t.pos@, t.depth@, m));
    if let Some(p) = t.parent(m) {
        if p < k && stripped(t, x, names, p as int) && t.depth@[p as int] < t.depth@[m] {
            lemma_lift_kept(t, x, names, k, p as int);
        }
    }
}

/// After node `k` has given its place to its children, the nodes stripped so far
/// include `k`.
proof fn lemma_strip_unwrap(t0: Tree, cur: Tree, next: Tree, x: int, names: Seq<Seq<char>>, k: int, f: int)
    requires
        t0.len() <= usize::MAX,
        t0.wf(),
        0 <= k < t0.len(),
        stripped(t0, x, names, k),
        stripped_below(t0, cur, x, names, k),
        0 <= f < cur.len(),
        cur.parent(f) == Some(k as usize),
        cur.index(f) == 0,
        cur.parent(k) is Some,
        next.wf(),
        next.same_data(&cur),
        next.parent(k).is_none(),
        forall|m: int| 0 <= m < cur.len() && m != k ==> #[trigger] next.parent(m) == (
            if chain_from(cur, f).contains(m as usize) { cur.parent(k) } else { cur.parent(m) }),
    ensures
        stripped_below(t0, next, x, names, k + 1),
{
    lemma_chain_members(cur, f);
    assert(chain_from(cur, f) =~= cur.siblings(f));
    assert forall|m: int| 0 <= m < t0.len() implies #[trigger] next.parent(m) == (
        if m < k + 1 && stripped(t0, x, names, m) { None } else { lift(t0, x, names, k + 1, m) }) by {
        lemma_lift_step(t0, x, names, k, m);
        if m != k {
            if cur.parent(m) == Some(k as usize) {
                lemma_child_at_index(cur, m);
                assert(cur.siblings(f)[cur.index(m)] == m);
                assert(chain_from(cur, f).contains(m as usize));
            } else if chain_from(cur, f).contains(m as usize) {
                let w = choose|w: int| 0 <= w < chain_from(cur, f).len() && chain_from(cur, f)[w] == m as usize;
                assert(cur.siblings(f)[w] == m);
            }
        }
    }
}

/// A stripped node without children just leaves its parent.
proof fn lemma_strip_remove(t0: Tree, cur: Tree, next: Tree, x: int, names: Seq<Seq<char>>, k: int)
    requires
        t0.len() <= usize::MAX,
        t0.wf(),
        0 <= k < t0.len(),
        stripped(t0, x, names, k),
        stripped_below(t0, cur, x, names, k),
        cur.first(k) is None,
        detached(cur, next, k),
    ensures
        stripped_below(t0, next, x, names, k + 1),
{
    assert(node_ok(cur.nodes@, cur.chains@, cur.pos@, cur.depth@, k));
    assert forall|m: int| 0 <= m < t0.len() implies #[trigger] next.parent(m) == (
        if m < k + 1 && stripped(t0, x, names, m) { None } else { lift(t0, x, names, k + 1, m) }) by {
        lemma_lift_step(t0, x, names, k, m);
        if m != k && cur.parent(m) == Some(k as usize) {
            lemma_child_at_index(cur, m);
        }
    }
}

/// A stripped node is left without children.
proof fn lemma_no_children(t0: Tree, u: Tree, x: int, names: Seq<Seq<char>>, c: int)
    requires
        t0.len() <= usize::MAX,
        t0.wf(),
        stripped_below(t0, u, x, names, t0.len() as int),
        0 <= c < t0.len(),
        stripped(t0, x, names, c),
    ensures
        u.children(c) == Seq::<usize>::empty(),
{
    if u.children(c).len() > 0 {
        lemma_kids(u, c);
        let m = u.children(c)[0] as int;
        assert(u.parent(m) == Some(c as usize));
        lemma_lift_kept(t0, x, names, t0.len() as int, m);
    }
}

/// Whether `name` is one of `names`.
fn name_listed(names: &[&str], name: &str) -> (r: bool)
    ensures
        r == name_seqs(names@).contains(name@),
{
    let ghost nv = name_seqs(names@);
    let mut k: usize = 0;
    while k < names.len()
        invariant
            k <= names@.len(),
            nv == name_seqs(names@),
            nv.len() == names@.len(),
            forall|j: int| 0 <= j < k ==> nv[j] != name@,
        decreases names.len() - k,
    {
        if str_eq(names[k], name) {
            proof {
                assert(nv[k as int] == name@);
            }
            return true;
        }
        k = k + 1;
    }
    false
}

impl Tree {
    /// Strips, below node `id`, the elements named in `names` (see [`stripped`]): each
    /// gives its place among its siblings to its children and leaves the tree. The
    /// walk goes down through the nodes that may have children.
    pub fn strip_elements_of(&mut self, id: &NodeId, names: &[&str])
        requires
            old(self).wf(),
        ensures
            stripped_below(*old(self), *final(self), id.value as int, name_seqs(names@), old(self).len() as int),
            forall|c: int| 0 <= c < old(self).len() && stripped(*old(self), id.value as int, name_seqs(names@), c)
                ==> #[trigger] final(self).children(c) == Seq::<usize>::empty(),
    {
        let ghost t0 = *self;
        let ghost nv = name_seqs(names@);
        let ghost x = id.value as int;
        let n = self.nodes.len();
        let mut marks: Vec<bool> = Vec::new();
        let mut j: usize = 0;
        while j < n
            invariant
                *self == t0,
                t0.wf(),
                n == t0.len(),
                nv == name_seqs(names@),
                x == id.value as int,
                j <= n,
                marks@.len() == j,
                forall|i: int| 0 <= i < j ==> #[trigger] marks@[i] == stripped(t0, x, nv, i),
            decreases n - j,
        {
            let is_target = if id.value < n && j != id.value {
                match &self.nodes[j].data {
                    NodeData::Element(e) => name_listed(names, e.name.local.as_str()) && self.reached_from(id.value, j),
                    _ => false,
                }
            } else {
                proof {
                    if id.value >= n && j != id.value {
                        lemma_unreached(t0, x, j as int);
                    }
                }
                false
            };
            marks.push(is_target);
            j = j + 1;
        }
        let mut k: usize = 0;
        proof {
            assert forall|m: int| 0 <= m < t0.len() implies #[trigger] self.parent(m) == (
                if m < 0 && stripped(t0, x, nv, m) { None } else { lift(t0, x, nv, 0, m) }) by {
                assert(node_ok(t0.nodes@, t0.chains@, t0.pos@, t0.depth@, m));
            }
        }
        while k < n
            invariant
                t0.wf(),
                n == t0.len(),
                nv == name_seqs(names@),
                x == id.value as int,
                k <= n,
                marks@.len() == n,
                forall|i: int| 0 <= i < n ==> #[trigger] marks@[i] == stripped(t0, x, nv, i),
                stripped_below(t0, *self, x, nv, k as int),
            decreases n - k,
        {
            let ghost cur = *self;
            if marks[k] {
                proof {
                    lemma_lift_some(t0, x, nv, k as int, k as int);
                    assert(self.parent(k as int) is Some);
                    assert(node_ok(cur.nodes@, cur.chains@, cur.pos@, cur.depth@, k as int));
                }
                match self.nodes[k].first_child {
                    Some(f) => {
                        proof {
                            assert(node_ok(cur.nodes@, cur.chains@, cur.pos@, cur.depth@, f.value as int));
                            assert(can_unwrap(cur, f.value as int));
                            lemma_chain_members(cur, f.value as int);
                        }
                        self.unwrap_node(&f);
                        proof {
                            assert(cur.index(f.value as int) == 0);
                        }
                        proof {
                            lemma_strip_unwrap(t0, cur, *self, x, nv, k as int, f.value as int);
                        }
                    },
                    None => {
                        self.remove_from_parent(&NodeId::new(k));
                        proof {
                            lemma_strip_remove(t0, cur, *self, x, nv, k as int);
                        }
                    },
                }
            } else {
                proof {
                    assert forall|m: int| 0 <= m < t0.len() implies #[trigger] self.parent(m) == (
                        if m < k + 1 && stripped(t0, x, nv, m) { None } else { lift(t0, x, nv, k + 1, m) }) by {
                        lemma_lift_step(t0, x, nv, k as int, m);
                    }
                }
            }
            k = k + 1;
        }
        proof {
            assert forall|c: int| 0 <= c < t0.len() && stripped(t0, x, nv, c)
                implies #[trigger] self.children(c) == Seq::<usize>::empty() by {
                lemma_no_children(t0, *self, x, nv, c);
            }
        }
    }
}

} // verus!
