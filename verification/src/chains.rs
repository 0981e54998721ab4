//! Moves of a node together with the siblings that follow it.
use vstd::prelude::*;
use crate::node::NodeId;
use crate::tree::{Tree, node_ok, member_ok, par};
use crate::ops::{TreeNodeOps, moved, detached, children_without, siblings_without};
use crate::reparent::lemma_children_are_childs;

verus! {

/// Node `c` and the siblings that follow it, in order.
pub open spec fn chain_from(t: Tree, c: int) -> Seq<usize> {
    t.siblings(c).skip(t.index(c))
}

/// The siblings that come before node `c`.
pub open spec fn chain_before(t: Tree, c: int) -> Seq<usize> {
    t.siblings(c).take(t.index(c))
}

/// Moving one node keeps the ancestors of every node that is not below it.
pub proof fn lemma_ancestry_kept(t: Tree, u: Tree, x: int, m: int, a: int)
    requires
        t.wf(),
        u.wf(),
        u.len() == t.len(),
        forall|n: int| 0 <= n < t.len() && n != x ==> #[trigger] u.parent(n) == t.parent(n),
        0 <= m < t.len(),
        !t.is_inclusive_descendant(m, x),
    ensures
        u.is_inclusive_descendant(m, a) == t.is_inclusive_descendant(m, a),
    decreases t.depth@[m],
{
    if m != a {
        assert(m != x);
        assert(node_ok(t.nodes@, t.chains@, t.pos@, t.depth@, m));
        assert(node_ok(u.nodes@, u.chains@, u.pos@, u.depth@, m));
        assert(u.parent(m) == t.parent(m));
        if let Some(q) = t.parent(m) {
            assert(t.depth@[q as int] < t.depth@[m]);
            assert(u.depth@[q as int] < u.depth@[m]);
            if t.is_inclusive_descendant(q as int, x) {
                assert(t.is_inclusive_descendant(m, x));
            }
            lemma_ancestry_kept(t, u, x, q as int, a);
        }
    }
}

/// What the chain of a node tells of it: its index, its neighbours, its parent.
pub proof fn lemma_in_chain(t: Tree, m: int, s: Seq<usize>, j: int)
    requires
        t.wf(),
        0 <= m < t.len(),
        t.siblings(m) == s,
        0 <= j < s.len(),
        s[j] == m,
    ensures
        t.index(m) == j,
        t.next(m) == (if j + 1 == s.len() { None } else { Some(s[j + 1]) }),
        t.prev(m) == (if j == 0 { None } else { Some(s[j - 1]) }),
{
    assert(node_ok(t.nodes@, t.chains@, t.pos@, t.depth@, m));
    assert(member_ok(t.len(), t.chains@, t.pos@, m, j));
}

/// Every node of the chain of `c` has the parent of `c`; its index in the chain is its
/// position, and a parent's children are the chain of its children.
pub proof fn lemma_chain_members(t: Tree, c: int)
    requires
        t.wf(),
        0 <= c < t.len(),
    ensures
        forall|j: int| 0 <= j < t.siblings(c).len() ==> {
            let m = #[trigger] t.siblings(c)[j];
            &&& 0 <= m < t.len()
            &&& t.siblings(m as int) == t.siblings(c)
            &&& t.index(m as int) == j
            &&& t.parent(m as int) == t.parent(c)
        },
        t.parent(c) matches Some(q) ==> t.children(q as int) == t.siblings(c),
        0 <= t.index(c) < t.siblings(c).len(),
        t.siblings(c)[t.index(c)] == c,
{
    let s = t.siblings(c);
    assert(node_ok(t.nodes@, t.chains@, t.pos@, t.depth@, c));
    assert forall|j: int| 0 <= j < s.len() implies {
        let m = #[trigger] s[j];
        &&& 0 <= m < t.len()
        &&& t.siblings(m as int) == s
        &&& t.index(m as int) == j
        &&& t.parent(m as int) == t.parent(c)
    } by {
        assert(member_ok(t.len(), t.chains@, t.pos@, c, j));
        assert(member_ok(t.len(), t.chains@, t.pos@, c, 0));
        assert(node_ok(t.nodes@, t.chains@, t.pos@, t.depth@, s[j] as int));
        assert(node_ok(t.nodes@, t.chains@, t.pos@, t.depth@, s[0] as int));
    }
    if let Some(q) = t.parent(c) {
        assert(member_ok(t.len(), t.chains@, t.pos@, c, 0));
        assert(node_ok(t.nodes@, t.chains@, t.pos@, t.depth@, s[0] as int));
        assert(node_ok(t.nodes@, t.chains@, t.pos@, t.depth@, q as int));
    }
}

/// The children of `q` once the nodes `ms`, the end of the chain of `c`, have gone
/// to the end of the children of `id`.
pub open spec fn children_after_append(t: Tree, c: int, id: int, ms: Seq<usize>, q: int) -> Seq<usize> {
    (if t.parent(c) == Some(q as usize) { chain_before(t, c) } else { t.children(q) })
        + (if q == id { ms } else { Seq::empty() })
}

impl TreeNodeOps {
    /// Appends node `new_child_id` and the siblings that follow it to the children of
    /// node `id`, in order. For an id out of the tree they are only detached.
    pub fn append_children_of(tree: &mut Tree, id: &NodeId, new_child_id: &NodeId)
        requires
            old(tree).wf(),
            old(tree).valid(new_child_id.value as int),
            old(tree).parent(new_child_id.value as int) != Some(id.value),
            old(tree).valid(id.value as int) ==> forall|j: int| 0 <= j < chain_from(*old(tree), new_child_id.value as int).len()
                ==> !old(tree).is_inclusive_descendant(id.value as int, #[trigger] chain_from(*old(tree), new_child_id.value as int)[j] as int),
        ensures
            final(tree).wf(),
            final(tree).same_data(&*old(tree)),
            forall|m: int| 0 <= m < old(tree).len() ==> #[trigger] final(tree).parent(m) == (
                if chain_from(*old(tree), new_child_id.value as int).contains(m as usize) {
                    if old(tree).valid(id.value as int) { Some(id.value) } else { None }
                } else {
                    old(tree).parent(m)
                }),
            forall|q: int| 0 <= q < old(tree).len() ==> #[trigger] final(tree).children(q) == children_after_append(
                *old(tree), new_child_id.value as int, id.value as int, chain_from(*old(tree), new_child_id.value as int), q),
    {
        let n0 = tree.nodes.len();
        let ghost t0 = *tree;
        let ghost c = new_child_id.value as int;
        let ghost s = t0.siblings(c);
        let ghost k = t0.index(c);
        let ghost ms = chain_from(t0, c);
        let ghost p = t0.parent(c);
        let ghost target = if t0.valid(id.value as int) { Some(id.value) } else { None };
        proof {
            lemma_chain_members(t0, c);
            assert(s.take(k) + ms =~= s);
            assert forall|j: int| 0 <= j < ms.len() implies {
                &&& 0 <= #[trigger] ms[j] < t0.len()
                &&& t0.siblings(ms[j] as int) == s.take(k) + ms
                &&& t0.index(ms[j] as int) == k + j
                &&& t0.parent(ms[j] as int) == p
            } by {
                assert(ms[j] == s[k + j]);
            }
            assert forall|q: int| 0 <= q < t0.len() implies #[trigger] t0.children(q) == (if p == Some(q as usize) {
                s.take(k) + ms.skip(0)
            } else {
                t0.children(q)
            }) + (if q == id.value as int { ms.take(0) } else { Seq::empty() }) by {
                assert(ms.skip(0) =~= ms);
                if q == id.value as int {
                    assert(t0.children(q) + ms.take(0) =~= t0.children(q));
                } else if p == Some(q as usize) {
                    assert(t0.children(q) == s);
                    assert(s.take(k) + ms.skip(0) + Seq::<usize>::empty() =~= s);
                } else {
                    assert(t0.children(q) + Seq::<usize>::empty() =~= t0.children(q));
                }
            }
        }
        let mut next: Option<NodeId> = Some(*new_child_id);
        let ghost mut i: int = 0;
        while next.is_some()
            invariant
                tree.wf(),
                tree.len() == t0.len(),
                t0.len() == n0,
                tree.same_data(&t0),
                0 <= i <= ms.len(),
                ms == chain_from(t0, c),
                ms == s.skip(k),
                0 <= k < s.len(),
                target == (if t0.valid(id.value as int) { Some(id.value) } else { None }),
                p == t0.parent(c),
                p != Some(id.value),
                p matches Some(pq) ==> t0.children(pq as int) == s,
                next == (if i < ms.len() { Some(NodeId { value: ms[i] }) } else { None }),
                forall|j: int| i <= j < ms.len() ==> {
                    &&& 0 <= #[trigger] ms[j] < t0.len()
                    &&& tree.siblings(ms[j] as int) == s.take(k) + ms.skip(i)
                    &&& tree.index(ms[j] as int) == k + j - i
                    &&& tree.parent(ms[j] as int) == p
                },
                forall|m: int| 0 <= m < t0.len() ==> #[trigger] tree.parent(m) == (
                    if ms.take(i).contains(m as usize) { target } else { t0.parent(m) }),
                forall|q: int| 0 <= q < t0.len() ==> #[trigger] tree.children(q) == (if p == Some(q as usize) {
                    s.take(k) + ms.skip(i)
                } else {
                    t0.children(q)
                }) + (if q == id.value as int { ms.take(i) } else { Seq::empty() }),
                t0.valid(id.value as int) ==> forall|j: int| i <= j < ms.len() ==> !tree.is_inclusive_descendant(id.value as int, #[trigger] ms[j] as int),
            decreases ms.len() - i,
        {
            let x = next.unwrap();
            let ghost cur = *tree;
            let ghost xi = x.value as int;
            let ghost r = s.take(k) + ms.skip(i + 1);
            proof {
                assert(xi == ms[i]);
                lemma_in_chain(cur, xi, s.take(k) + ms.skip(i), k);
                assert(ms.skip(i)[0] == ms[i]);
                if i + 1 < ms.len() {
                    assert((s.take(k) + ms.skip(i))[k + 1] == ms[i + 1]);
                }
                assert((s.take(k) + ms.skip(i)).remove(k) =~= r);
            }
            next = tree.nodes[x.value].next_sibling;
            TreeNodeOps::append_child_of(tree, id, &x);
            proof {
                let u = *tree;
                assert(cur.parent(xi) == p);
                if t0.valid(id.value as int) {
                    assert(moved(cur, u, xi, Some(id.value), children_without(cur, xi, id.value as int),
                        children_without(cur, xi, id.value as int).len() as int));
                } else {
                    assert(detached(cur, u, xi));
                }
                assert forall|m: int| 0 <= m < t0.len() && m != xi implies #[trigger] u.parent(m) == cur.parent(m) by {}
                // the parents
                assert forall|m: int| 0 <= m < t0.len() implies #[trigger] u.parent(m) == (
                    if ms.take(i + 1).contains(m as usize) { target } else { t0.parent(m) }) by {
                    assert(ms.take(i + 1) =~= ms.take(i).push(ms[i]));
                    if m != xi {
                        assert(cur.parent(m) == u.parent(m));
                        if ms.take(i).contains(m as usize) {
                            let w = choose|w: int| 0 <= w < ms.take(i).len() && #[trigger] ms.take(i)[w] == m as usize;
                            assert(ms.take(i + 1)[w] == m as usize);
                        }
                        if ms.take(i + 1).contains(m as usize) {
                            let w = choose|w: int| 0 <= w < ms.take(i + 1).len() && #[trigger] ms.take(i + 1)[w] == m as usize;
                            assert(ms.take(i + 1)[i] == ms[i]);
                            assert(w != i);
                            assert(ms.take(i)[w] == m as usize);
                        }
                    } else {
                        assert(ms.take(i + 1)[i] == m as usize);
                    }
                }
                // the children
                if t0.valid(id.value as int) {
                    lemma_children_are_childs(cur.nodes@, cur.chains@, cur.pos@, cur.depth@, id.value as int);
                }
                assert forall|q: int| 0 <= q < t0.len() implies #[trigger] u.children(q) == (if p == Some(q as usize) {
                    s.take(k) + ms.skip(i + 1)
                } else {
                    t0.children(q)
                }) + (if q == id.value as int { ms.take(i + 1) } else { Seq::empty() }) by {
                    assert(ms.take(i + 1) =~= ms.take(i).push(ms[i]));
                    if q == id.value as int {
                        assert(children_without(cur, xi, q) == cur.children(q));
                        assert(cur.children(q).insert(cur.children(q).len() as int, xi as usize) =~= cur.children(q).push(xi as usize));
                        assert(t0.children(q) + ms.take(i) + seq![ms[i]] =~= t0.children(q) + ms.take(i).push(ms[i]));
                    } else if p == Some(q as usize) {
                        assert(cur.children(q) =~= s.take(k) + ms.skip(i));
                        assert(children_without(cur, xi, q) == cur.children(q).remove(k));
                        assert(r + Seq::<usize>::empty() =~= r);
                    } else {
                        assert(children_without(cur, xi, q) == cur.children(q));
                    }
                }
                // the chain of the nodes still to move
                assert forall|j: int| i + 1 <= j < ms.len() implies {
                    &&& 0 <= #[trigger] ms[j] < t0.len()
                    &&& u.siblings(ms[j] as int) == s.take(k) + ms.skip(i + 1)
                    &&& u.index(ms[j] as int) == k + j - (i + 1)
                    &&& u.parent(ms[j] as int) == p
                } by {
                    let mj = ms[j] as int;
                    assert(mj != xi) by {
                        lemma_in_chain(cur, mj, s.take(k) + ms.skip(i), k + j - i);
                    }
                    assert(cur.siblings(mj) == cur.siblings(xi));
                    assert(siblings_without(cur, xi, mj) == r);
                    if t0.valid(id.value as int) {
                        let sw = children_without(cur, xi, id.value as int);
                        if r == sw {
                            assert(r[k + j - i - 1] == ms[j]);
                            assert(sw.contains(ms[j]));
                            assert(cur.parent(mj) == Some(id.value));
                        }
                    }
                    assert(u.siblings(mj) == r);
                    assert(r[k + j - (i + 1)] == ms[j]);
                    lemma_in_chain(u, mj, r, k + j - (i + 1));
                }
                if t0.valid(id.value as int) {
                    assert forall|j: int| i + 1 <= j < ms.len() implies !u.is_inclusive_descendant(id.value as int, #[trigger] ms[j] as int) by {
                        lemma_ancestry_kept(cur, u, xi, id.value as int, ms[j] as int);
                    }
                }
                assert(u.same_data(&t0));
            }
            proof {
                i = i + 1;
            }
        }
        proof {
            assert(i == ms.len());
            assert(ms.take(i) =~= ms);
            assert(ms.skip(i) =~= Seq::<usize>::empty());
            assert forall|q: int| 0 <= q < t0.len() implies #[trigger] tree.children(q) == children_after_append(
                t0, c, id.value as int, ms, q) by {
                assert(s.take(k) + ms.skip(i) =~= chain_before(t0, c));
            }
        }
    }
}

/// The chain of `id` once the nodes that follow `c` have left it (it is the chain of
/// `id` itself when `c` is not its sibling).
pub open spec fn chain_without_moved(t: Tree, c: int, id: int) -> Seq<usize> {
    if t.siblings(id) == t.siblings(c) { chain_before(t, c) } else { t.siblings(id) }
}

/// The chain of `id` once the nodes `ms` that follow `c` stand just before `id`.
pub open spec fn chain_with_inserted(t: Tree, c: int, id: int, ms: Seq<usize>) -> Seq<usize> {
    let rest = chain_without_moved(t, c, id);
    rest.take(t.index(id)) + ms + rest.skip(t.index(id))
}

/// The children of `q` once the nodes that follow `c` stand just before node `id`.
pub open spec fn children_after_insert_before(t: Tree, c: int, id: int, q: int) -> Seq<usize> {
    if 0 <= id < t.len() && t.parent(id) == Some(q as usize) {
        chain_with_inserted(t, c, id, chain_from(t, c))
    } else if t.parent(c) == Some(q as usize) {
        chain_before(t, c)
    } else {
        t.children(q)
    }
}

/// The parents once the first `i` nodes of `ms` have moved below `tgt`.
#[verifier::opaque]
pub open spec fn parents_moved(t0: Tree, t: Tree, ms: Seq<usize>, i: int, tgt: Option<usize>) -> bool {
    forall|m: int| 0 <= m < t0.len() ==> #[trigger] t.parent(m) == (if ms.take(i).contains(m as usize) { tgt } else { t0.parent(m) })
}

/// The nodes of `ms` from index `i` on still form the end of chain `rm`, from index `bs`.
#[verifier::opaque]
pub open spec fn rest_in_chain(t0: Tree, t: Tree, ms: Seq<usize>, i: int, rm: Seq<usize>, bs: int, p: Option<usize>) -> bool {
    forall|j: int| i <= j < ms.len() ==> {
        &&& 0 <= #[trigger] ms[j] < t0.len()
        &&& t.siblings(ms[j] as int) == rm
        &&& t.index(ms[j] as int) == bs + j - i
        &&& t.parent(ms[j] as int) == p
    }
}

/// The children of every node once the nodes of `ms` before index `i` stand in chain
/// `tg` below `qd`; `rest` is what is left of `ms`, still below `p`.
#[verifier::opaque]
pub open spec fn children_moved(t0: Tree, t: Tree, vd: bool, qd: Option<usize>, p: Option<usize>, same: bool,
    tg: Seq<usize>, rest: Seq<usize>, before: Seq<usize>) -> bool {
    forall|q: int| 0 <= q < t0.len() ==> #[trigger] t.children(q) == (if vd && qd == Some(q as usize) {
        if same { tg + rest } else { tg }
    } else if p == Some(q as usize) {
        before + rest
    } else {
        t0.children(q)
    })
}

proof fn lemma_parents_step(t0: Tree, cur: Tree, u: Tree, ms: Seq<usize>, i: int, tgt: Option<usize>)
    requires
        t0.len() <= usize::MAX,
        parents_moved(t0, cur, ms, i, tgt),
        0 <= i < ms.len(),
        forall|m: int| 0 <= m < t0.len() && m != ms[i] ==> #[trigger] u.parent(m) == cur.parent(m),
        u.parent(ms[i] as int) == tgt,
    ensures
        parents_moved(t0, u, ms, i + 1, tgt),
{
    reveal(parents_moved);
    assert forall|m: int| 0 <= m < t0.len() implies #[trigger] u.parent(m) == (
        if ms.take(i + 1).contains(m as usize) { tgt } else { t0.parent(m) }) by {
        assert(cur.parent(m) == (if ms.take(i).contains(m as usize) { tgt } else { t0.parent(m) }));
        if m != ms[i] {
            if ms.take(i).contains(m as usize) {
                let w = choose|w: int| 0 <= w < ms.take(i).len() && #[trigger] ms.take(i)[w] == m as usize;
                assert(ms.take(i + 1)[w] == m as usize);
            }
            if ms.take(i + 1).contains(m as usize) {
                let w = choose|w: int| 0 <= w < ms.take(i + 1).len() && #[trigger] ms.take(i + 1)[w] == m as usize;
                assert(ms.take(i + 1)[i] == ms[i]);
                assert(w != i);
                assert(ms.take(i)[w] == m as usize);
            }
        } else {
            assert(ms.take(i + 1)[i] == m as usize);
        }
    }
}

proof fn lemma_rest_step(t0: Tree, cur: Tree, u: Tree, ms: Seq<usize>, i: int, rm: Seq<usize>, bs: int, p: Option<usize>,
    sw: Seq<usize>, ins: Seq<usize>, into: bool, rm1: Seq<usize>, bs1: int)
    requires
        cur.wf(),
        u.wf(),
        cur.len() == t0.len(),
        u.len() == t0.len(),
        rest_in_chain(t0, cur, ms, i, rm, bs, p),
        0 <= i < ms.len(),
        forall|m: int| 0 <= m < t0.len() ==> #[trigger] u.siblings(m) == (if into && (m == ms[i] as int
            || siblings_without(cur, ms[i] as int, m) == sw) { ins } else { siblings_without(cur, ms[i] as int, m) }),
        forall|m: int| 0 <= m < t0.len() && m != ms[i] ==> #[trigger] u.parent(m) == cur.parent(m),
        rm1 == (if into && rm.remove(bs) == sw { ins } else { rm.remove(bs) }),
        forall|j: int| i < j < ms.len() ==> 0 <= bs1 + j - (i + 1) < rm1.len() && #[trigger] rm1[bs1 + j - (i + 1)] == ms[j],
    ensures
        rest_in_chain(t0, u, ms, i + 1, rm1, bs1, p),
{
    reveal(rest_in_chain);
    let x = ms[i] as int;
    assert(cur.siblings(x) == rm && cur.index(x) == bs);
    assert forall|j: int| i + 1 <= j < ms.len() implies {
        &&& 0 <= #[trigger] ms[j] < t0.len()
        &&& u.siblings(ms[j] as int) == rm1
        &&& u.index(ms[j] as int) == bs1 + j - (i + 1)
        &&& u.parent(ms[j] as int) == p
    } by {
        let m = ms[j] as int;
        assert(cur.siblings(m) == rm && cur.index(m) == bs + j - i && cur.parent(m) == p);
        assert(m != x);
        assert(siblings_without(cur, x, m) == rm.remove(bs));
        assert(u.siblings(m) == rm1);
        assert(rm1[bs1 + j - (i + 1)] == ms[j]);
        lemma_in_chain(u, m, rm1, bs1 + j - (i + 1));
    }
}

proof fn lemma_children_step(t0: Tree, cur: Tree, u: Tree, x: int, vd: bool, qd: Option<usize>, p: Option<usize>, same: bool,
    tg: Seq<usize>, rest: Seq<usize>, before: Seq<usize>, ins: Seq<usize>, tg1: Seq<usize>, rest1: Seq<usize>)
    requires
        children_moved(t0, cur, vd, qd, p, same, tg, rest, before),
        cur.len() == t0.len(),
        cur.parent(x) == p,
        p is Some && !(vd && qd == p) ==> cur.index(x) == before.len(),
        rest.len() > 0,
        rest.remove(0) == rest1,
        (before + rest).remove(before.len() as int) == before + rest1,
        ins == (if same { tg1 + rest1 } else { tg1 }),
        forall|q: int| 0 <= q < t0.len() ==> #[trigger] u.children(q) == (if vd && qd == Some(q as usize) {
            ins
        } else {
            children_without(cur, x, q)
        }),
    ensures
        children_moved(t0, u, vd, qd, p, same, tg1, rest1, before),
{
    reveal(children_moved);
    assert forall|q: int| 0 <= q < t0.len() implies #[trigger] u.children(q) == (if vd && qd == Some(q as usize) {
        if same { tg1 + rest1 } else { tg1 }
    } else if p == Some(q as usize) {
        before + rest1
    } else {
        t0.children(q)
    }) by {
        if !(vd && qd == Some(q as usize)) && p == Some(q as usize) {
            assert(cur.children(q) == before + rest);
        }
    }
}

impl TreeNodeOps {
    /// Inserts node `new_node_id` and the siblings that follow it just before node `id`,
    /// in order. For an id out of the tree they are only detached.
    #[verifier::rlimit(80)]
    #[verifier::spinoff_prover]
    pub fn insert_siblings_before(tree: &mut Tree, id: &NodeId, new_node_id: &NodeId)
        requires
            old(tree).wf(),
            old(tree).valid(new_node_id.value as int),
            !chain_from(*old(tree), new_node_id.value as int).contains(id.value),
            old(tree).valid(id.value as int) ==> (old(tree).parent(id.value as int) matches Some(q) ==>
                forall|j: int| 0 <= j < chain_from(*old(tree), new_node_id.value as int).len()
                    ==> !old(tree).is_inclusive_descendant(q as int, #[trigger] chain_from(*old(tree), new_node_id.value as int)[j] as int)),
        ensures
            final(tree).wf(),
            final(tree).same_data(&*old(tree)),
            forall|m: int| 0 <= m < old(tree).len() ==> #[trigger] final(tree).parent(m) == (
                if chain_from(*old(tree), new_node_id.value as int).contains(m as usize) {
                    if old(tree).valid(id.value as int) { old(tree).parent(id.value as int) } else { None }
                } else {
                    old(tree).parent(m)
                }),
            forall|q: int| 0 <= q < old(tree).len() ==> #[trigger] final(tree).children(q) == children_after_insert_before(
                *old(tree), new_node_id.value as int, id.value as int, q),
            old(tree).valid(id.value as int) ==> final(tree).siblings(id.value as int) == chain_with_inserted(
                *old(tree), new_node_id.value as int, id.value as int, chain_from(*old(tree), new_node_id.value as int)),
    {
        let n0 = tree.nodes.len();
        let ghost t0 = *tree;
        let ghost c = new_node_id.value as int;
        let ghost d = id.value as int;
        let ghost s = t0.siblings(c);
        let ghost k = t0.index(c);
        let ghost ms = chain_from(t0, c);
        let ghost p = t0.parent(c);
        let ghost vd = t0.valid(d);
        let ghost tt = if vd { t0.siblings(d) } else { Seq::empty() };
        let ghost ti = if vd { t0.index(d) } else { 0 };
        let ghost qd = if vd { t0.parent(d) } else { None };
        let ghost same = vd && tt == s;
        let ghost tp = if same { s.take(k) } else { tt };
        proof {
            lemma_chain_members(t0, c);
            assert(s.take(k) + ms =~= s);
            if vd {
                lemma_chain_members(t0, d);
                if same {
                    assert(s[ti] == d);
                    assert(t0.parent(s[ti] as int) == p);
                    if ti >= k {
                        assert(ms[ti - k] == d);
                        assert(ms.contains(id.value));
                    }
                    assert(tp[ti] == d);
                } else {
                    if s.contains(id.value) {
                        let w = choose|w: int| 0 <= w < s.len() && #[trigger] s[w] == id.value;
                        assert(t0.siblings(d) == s);
                    }
                    assert(tp[ti] == d);
                    if p is Some && p == qd {
                        assert(t0.children(p.unwrap() as int) == s);
                        assert(t0.children(p.unwrap() as int) == tt);
                    }
                }
            }
            reveal(parents_moved);
            reveal(rest_in_chain);
            reveal(children_moved);
            let tg0 = tp.take(ti) + ms.take(0) + tp.skip(ti);
            assert(tg0 =~= tp);
            assert(ms.skip(0) =~= ms);
            assert forall|j: int| 0 <= j < ms.len() implies {
                &&& 0 <= #[trigger] ms[j] < t0.len()
                &&& t0.siblings(ms[j] as int) == (if same { tg0 + ms.skip(0) } else { s.take(k) + ms.skip(0) })
                &&& t0.index(ms[j] as int) == (if same { k + 0 } else { k }) + j - 0
                &&& t0.parent(ms[j] as int) == p
            } by {
                assert(ms[j] == s[k + j]);
            }
            assert forall|q: int| 0 <= q < t0.len() implies #[trigger] t0.children(q) == (if vd && qd == Some(q as usize) {
                if same { tg0 + ms.skip(0) } else { tg0 }
            } else if p == Some(q as usize) {
                s.take(k) + ms.skip(0)
            } else {
                t0.children(q)
            }) by {
                if vd && qd == Some(q as usize) {
                    assert(t0.children(q) == tt);
                } else if p == Some(q as usize) {
                    assert(t0.children(q) == s);
                }
            }
        }
        let mut next: Option<NodeId> = Some(*new_node_id);
        let ghost mut i: int = 0;
        while next.is_some()
            invariant
                tree.wf(),
                tree.len() == t0.len(),
                t0.len() == n0,
                tree.same_data(&t0),
                0 <= i <= ms.len(),
                ms == chain_from(t0, c),
                ms == s.skip(k),
                s == t0.siblings(c),
                0 <= k < s.len(),
                s.take(k) + ms == s,
                p == t0.parent(c),
                vd == t0.valid(d),
                d == id.value as int,
                !ms.contains(id.value),
                vd ==> tt == t0.siblings(d) && ti == t0.index(d) && qd == t0.parent(d),
                !vd ==> qd is None,
                same == (vd && tt == s),
                tp == (if same { s.take(k) } else { tt }),
                vd ==> 0 <= ti < tp.len() && tp[ti] == id.value,
                same ==> ti < k,
                same ==> qd == p,
                vd && !same ==> !s.contains(id.value),
                vd && !same && p is Some ==> p != qd,
                next == (if i < ms.len() { Some(NodeId { value: ms[i] }) } else { None }),
                parents_moved(t0, *tree, ms, i, qd),
                rest_in_chain(t0, *tree, ms, i,
                    if same { tp.take(ti) + ms.take(i) + tp.skip(ti) + ms.skip(i) } else { s.take(k) + ms.skip(i) },
                    if same { k + i } else { k }, p),
                children_moved(t0, *tree, vd, qd, p, same, tp.take(ti) + ms.take(i) + tp.skip(ti), ms.skip(i), s.take(k)),
                vd ==> tree.siblings(d) == (if same {
                    tp.take(ti) + ms.take(i) + tp.skip(ti) + ms.skip(i)
                } else {
                    tp.take(ti) + ms.take(i) + tp.skip(ti)
                }),
                vd ==> tree.index(d) == ti + i,
                vd ==> tree.parent(d) == qd,
                vd ==> (qd matches Some(qq) ==> forall|j: int| i <= j < ms.len() ==> !tree.is_inclusive_descendant(qq as int, #[trigger] ms[j] as int)),
            decreases ms.len() - i,
        {
            let x = next.unwrap();
            let ghost cur = *tree;
            let ghost xi = x.value as int;
            let ghost tg = tp.take(ti) + ms.take(i) + tp.skip(ti);
            let ghost tg1 = tp.take(ti) + ms.take(i + 1) + tp.skip(ti);
            let ghost rm = if same { tg + ms.skip(i) } else { s.take(k) + ms.skip(i) };
            let ghost bs = if same { k + i } else { k };
            let ghost rm1 = if same { tg1 + ms.skip(i + 1) } else { s.take(k) + ms.skip(i + 1) };
            proof {
                reveal(rest_in_chain);
                assert(xi == ms[i]);
                assert(ms.skip(i)[0] == ms[i]);
                assert(cur.siblings(xi) == rm && cur.index(xi) == bs && cur.parent(xi) == p);
                if same {
                    assert(tg.len() == k + i);
                    assert(rm[k + i] == ms[i]);
                    if i + 1 < ms.len() {
                        assert(rm[k + i + 1] == ms[i + 1]);
                    }
                } else {
                    assert(rm[k] == ms[i]);
                    if i + 1 < ms.len() {
                        assert(rm[k + 1] == ms[i + 1]);
                    }
                }
                lemma_in_chain(cur, xi, rm, bs);
                assert(xi != d);
            }
            next = tree.nodes[x.value].next_sibling;
            TreeNodeOps::insert_before_of(tree, id, &x);
            proof {
                let u = *tree;
                let sw = siblings_without(cur, xi, d);
                let ins = if same { tg1 + ms.skip(i + 1) } else { tg1 };
                assert(rm.remove(bs) =~= (if same { tg + ms.skip(i + 1) } else { s.take(k) + ms.skip(i + 1) }));
                if vd {
                    assert(moved(cur, u, xi, qd, sw, crate::ops::index_without(cur, xi, d)));
                    if same {
                        assert(cur.siblings(d) == cur.siblings(xi));
                        assert(sw == rm.remove(bs));
                        assert(crate::ops::index_without(cur, xi, d) == ti + i);
                        assert((tg + ms.skip(i + 1)).insert(ti + i, xi as usize) =~= ins);
                    } else {
                        if cur.siblings(d) == cur.siblings(xi) {
                            assert(cur.siblings(d)[ti + i] == id.value);
                            if (ti + i) < k {
                                assert(s.take(k)[ti + i] == id.value);
                                assert(s[ti + i] == id.value);
                            } else {
                                assert(ms.skip(i)[ti + i - k] == id.value);
                                assert(ms[ti + i - k + i] == id.value);
                            }
                        }
                        assert(sw == tg);
                        assert(crate::ops::index_without(cur, xi, d) == ti + i);
                        assert(tg.insert(ti + i, xi as usize) =~= ins);
                        if rm.remove(bs) == sw {
                            assert(sw[ti + i] == id.value);
                            if ti + i < k {
                                assert(s[ti + i] == id.value);
                            } else {
                                assert(ms[ti + i - k + i + 1] == id.value);
                            }
                        }
                    }
                    assert(sw.insert(crate::ops::index_without(cur, xi, d), xi as usize) == ins);
                } else {
                    assert(detached(cur, u, xi));
                }
                lemma_parents_step(t0, cur, u, ms, i, qd);
                let bs1 = if same { k + i + 1 } else { k };
                assert forall|j: int| i < j < ms.len() implies 0 <= bs1 + j - (i + 1) < rm1.len()
                    && #[trigger] rm1[bs1 + j - (i + 1)] == ms[j] by {
                    if same {
                        assert(tg1.len() == k + i + 1);
                    }
                }
                lemma_rest_step(t0, cur, u, ms, i, rm, bs, p, sw, ins, vd, rm1, bs1);
                assert((s.take(k) + ms.skip(i)).remove(k) =~= s.take(k) + ms.skip(i + 1));
                assert(ms.skip(i).remove(0) =~= ms.skip(i + 1));
                lemma_children_step(t0, cur, u, xi, vd, qd, p, same, tg, ms.skip(i), s.take(k), ins, tg1, ms.skip(i + 1));
                if vd {
                    assert(u.siblings(d) == ins);
                    assert(tp.skip(ti)[0] == id.value);
                    assert(ins[ti + i + 1] == id.value);
                    lemma_in_chain(u, d, ins, ti + i + 1);
                    if let Some(qq) = qd {
                        assert(node_ok(cur.nodes@, cur.chains@, cur.pos@, cur.depth@, d));
                        assert forall|j: int| i + 1 <= j < ms.len() implies !u.is_inclusive_descendant(qq as int, #[trigger] ms[j] as int) by {
                            lemma_ancestry_kept(cur, u, xi, qq as int, ms[j] as int);
                        }
                    }
                }
                assert(u.same_data(&t0));
            }
            proof {
                i = i + 1;
            }
        }
        proof {
            reveal(parents_moved);
            reveal(children_moved);
            assert(i == ms.len());
            assert(ms.take(i) =~= ms);
            assert(ms.skip(i) =~= Seq::<usize>::empty());
            let tg = tp.take(ti) + ms + tp.skip(ti);
            if vd {
                assert(chain_without_moved(t0, c, d) == tp);
                assert(chain_with_inserted(t0, c, d, ms) == tg);
                if same {
                    assert(tg + ms.skip(i) =~= tg);
                }
            }
            assert forall|q: int| 0 <= q < t0.len() implies #[trigger] tree.children(q) == children_after_insert_before(
                t0, c, d, q) by {
                if vd && qd == Some(q as usize) {
                    if same {
                        assert(tp.take(ti) + ms.take(i) + tp.skip(ti) + ms.skip(i) =~= tg);
                    }
                } else if p == Some(q as usize) {
                    assert(s.take(k) + ms.skip(i) =~= chain_before(t0, c));
                }
            }
            assert forall|m: int| 0 <= m < t0.len() implies #[trigger] tree.parent(m) == (
                if ms.contains(m as usize) { qd } else { t0.parent(m) }) by {}
        }
    }
}

/// Unwrapping node `x` does something: it has a parent element, which has a parent.
pub open spec fn can_unwrap(t: Tree, x: int) -> bool {
    &&& t.valid(x)
    &&& t.parent(x) matches Some(p) && t.data(p as int) is Element && t.parent(p as int) is Some
}

impl Tree {
    /// Unwraps the node and the siblings that follow it from their parent: they take
    /// the parent's place among its siblings, and the parent, keeping the siblings that
    /// came before the node, leaves the tree. Nothing happens unless the parent is an
    /// element that has a parent itself.
    pub fn unwrap_node(&mut self, id: &NodeId)
        requires
            old(self).wf(),
        ensures
            final(self).wf(),
            final(self).same_data(&*old(self)),
            !can_unwrap(*old(self), id.value as int) ==> *final(self) == *old(self),
            can_unwrap(*old(self), id.value as int) ==> {
                let x = id.value as int;
                let p = old(self).parent(x).unwrap() as int;
                let g = old(self).parent(p).unwrap() as int;
                let ms = chain_from(*old(self), x);
                let pi = old(self).index(p);
                &&& final(self).parent(p).is_none()
                &&& forall|m: int| 0 <= m < old(self).len() && m != p ==> #[trigger] final(self).parent(m) == (
                    if ms.contains(m as usize) { Some(g as usize) } else { old(self).parent(m) })
                &&& final(self).children(g) == old(self).children(g).take(pi) + ms + old(self).children(g).skip(pi + 1)
                &&& final(self).children(p) == chain_before(*old(self), x)
                &&& forall|q: int| 0 <= q < old(self).len() && q != g && q != p ==> #[trigger] final(self).children(q) == old(self).children(q)
            },
    {
        let x = id.value;
        if x >= self.nodes.len() {
            return;
        }
        let pid = match self.nodes[x].parent {
            Some(pid) => pid,
            None => {
                return;
            },
        };
        let ghost t0 = *self;
        proof {
            assert(node_ok(t0.nodes@, t0.chains@, t0.pos@, t0.depth@, x as int));
            assert(node_ok(t0.nodes@, t0.chains@, t0.pos@, t0.depth@, pid.value as int));
        }
        if !self.nodes[pid.value].is_element() || self.nodes[pid.value].parent.is_none() {
            return;
        }
        let ghost xi = x as int;
        let ghost p = pid.value as int;
        let ghost g = t0.parent(p).unwrap() as int;
        let ghost ms = chain_from(t0, xi);
        let ghost pi = t0.index(p);
        let ghost tt = t0.siblings(p);
        proof {
            lemma_chain_members(t0, xi);
            lemma_chain_members(t0, p);
            assert(node_ok(t0.nodes@, t0.chains@, t0.pos@, t0.depth@, g));
            // the moved nodes are children of p, below g
            assert forall|j: int| 0 <= j < ms.len() implies !t0.is_inclusive_descendant(g, #[trigger] ms[j] as int) by {
                let m = ms[j] as int;
                assert(ms[j] == t0.siblings(xi)[t0.index(xi) + j]);
                assert(t0.parent(m) == Some(p as usize));
                assert(node_ok(t0.nodes@, t0.chains@, t0.pos@, t0.depth@, m));
                if t0.is_inclusive_descendant(g, m) {
                    crate::attach::lemma_desc_depth(t0.nodes@, t0.chains@, t0.pos@, t0.depth@, g, m);
                }
            }
            if ms.contains(pid.value) {
                let w = choose|w: int| 0 <= w < ms.len() && #[trigger] ms[w] == pid.value;
                assert(ms[w] == t0.siblings(xi)[t0.index(xi) + w]);
                assert(t0.parent(p) == Some(p as usize));
                assert(node_ok(t0.nodes@, t0.chains@, t0.pos@, t0.depth@, p));
            }
            assert(t0.siblings(p) != t0.siblings(xi)) by {
                if t0.siblings(p) == t0.siblings(xi) {
                    assert(t0.parent(p) == t0.parent(xi));
                    assert(node_ok(t0.nodes@, t0.chains@, t0.pos@, t0.depth@, p));
                }
            }
        }
        TreeNodeOps::insert_siblings_before(self, &pid, id);
        let ghost t1 = *self;
        proof {
            let ins = tt.take(pi) + ms + tt.skip(pi);
            assert(chain_without_moved(t0, xi, p) == tt);
            assert(t1.siblings(p) == ins);
            assert(ins[pi + ms.len()] == pid.value);
            lemma_in_chain(t1, p, ins, pi + ms.len());
            assert(t1.parent(p) == t0.parent(p)) by {
                assert(!ms.contains(pid.value));
            }
            assert(t0.children(g) == tt);
        }
        TreeNodeOps::remove_from_parent(self, &pid);
        proof {
            let u = *self;
            let ins = tt.take(pi) + ms + tt.skip(pi);
            assert(detached(t1, u, p));
            assert(t1.children(g) == ins);
            assert(u.children(g) == ins.remove(pi + ms.len()));
            assert(ins.remove(pi + ms.len()) =~= tt.take(pi) + ms + tt.skip(pi + 1));
            assert(t1.children(p) == chain_before(t0, xi));
            assert(u.children(p) == t1.children(p));
            assert forall|q: int| 0 <= q < t0.len() && q != g && q != p implies #[trigger] u.children(q) == t0.children(q) by {
                assert(u.children(q) == children_without(t1, p, q));
                assert(t1.children(q) == children_after_insert_before(t0, xi, p, q));
            }
            assert forall|m: int| 0 <= m < t0.len() && m != p implies #[trigger] u.parent(m) == (
                if ms.contains(m as usize) { Some(g as usize) } else { t0.parent(m) }) by {
                assert(u.parent(m) == t1.parent(m));
            }
        }
    }
}

/// Where node `m` stands once node `x` has left its chain of siblings.
pub proof fn lemma_index_without(t: Tree, x: int, m: int)
    requires
        t.wf(),
        0 <= x < t.len(),
        0 <= m < t.len(),
        m != x,
    ensures
        0 <= crate::ops::index_without(t, x, m) < siblings_without(t, x, m).len(),
        siblings_without(t, x, m)[crate::ops::index_without(t, x, m)] == m,
{
    lemma_chain_members(t, m);
    lemma_chain_members(t, x);
    if t.siblings(m) == t.siblings(x) {
        assert(t.index(m) != t.index(x));
    }
}

impl Tree {
    /// Wraps the node in `new_parent`: the wrapper takes the node's place among its
    /// siblings, and the node becomes the wrapper's last child.
    pub fn wrap_node(&mut self, id: &NodeId, new_parent: &NodeId)
        requires
            old(self).wf(),
            old(self).valid(id.value as int),
            old(self).valid(new_parent.value as int),
            new_parent.value != id.value,
            old(self).parent(id.value as int) matches Some(q) ==> !old(self).is_inclusive_descendant(q as int, new_parent.value as int),
        ensures
            final(self).wf(),
            final(self).same_data(&*old(self)),
            ({
                let x = id.value as int;
                let w = new_parent.value as int;
                let sw = siblings_without(*old(self), w, x);
                let k = crate::ops::index_without(*old(self), w, x);
                &&& final(self).parent(w) == old(self).parent(x)
                &&& final(self).parent(x) == Some(w as usize)
                &&& forall|m: int| 0 <= m < old(self).len() && m != x && m != w ==> #[trigger] final(self).parent(m) == old(self).parent(m)
                &&& final(self).siblings(w) == sw.update(k, w as usize)
                &&& final(self).children(w) == old(self).children(w).push(x as usize)
                &&& forall|q: int| 0 <= q < old(self).len() && q != w ==> #[trigger] final(self).children(q) == (
                    if old(self).parent(x) == Some(q as usize) { sw.update(k, w as usize) } else { children_without(*old(self), w, q) })
            }),
    {
        let n0 = self.nodes.len();
        let ghost t0 = *self;
        let ghost x = id.value as int;
        let ghost w = new_parent.value as int;
        let ghost sw = siblings_without(t0, w, x);
        let ghost k = crate::ops::index_without(t0, w, x);
        let ghost pp = t0.parent(x);
        proof {
            lemma_index_without(t0, w, x);
            assert(node_ok(t0.nodes@, t0.chains@, t0.pos@, t0.depth@, x));
        }
        TreeNodeOps::insert_before_of(self, id, new_parent);
        let ghost t1 = *self;
        proof {
            assert(moved(t0, t1, w, pp, sw, k));
            let ch = sw.insert(k, w as usize);
            assert(t1.siblings(x) == ch);
            assert(ch[k + 1] == x as usize);
            lemma_in_chain(t1, x, ch, k + 1);
            // the node is no ancestor of its wrapper
            if let Some(q) = pp {
                assert(t1.parent(w) == Some(q));
                lemma_ancestry_kept(t0, t1, w, q as int, x);
                if t0.is_inclusive_descendant(q as int, x) {
                    crate::attach::lemma_desc_depth(t0.nodes@, t0.chains@, t0.pos@, t0.depth@, q as int, x);
                }
                assert(node_ok(t1.nodes@, t1.chains@, t1.pos@, t1.depth@, w));
                assert(!t1.is_inclusive_descendant(w, x));
            } else {
                assert(t1.parent(w).is_none());
                assert(!t1.is_inclusive_descendant(w, x));
            }
            assert(pp != Some(w as usize)) by {
                if pp == Some(w as usize) {
                    assert(t0.is_inclusive_descendant(w, w));
                }
            }
            assert(t1.children(w) == t0.children(w)) by {
                assert(node_ok(t0.nodes@, t0.chains@, t0.pos@, t0.depth@, w));
                assert(children_without(t0, w, w) == t0.children(w));
            }
        }
        TreeNodeOps::append_child_of(self, new_parent, id);
        proof {
            let u = *self;
            let ch = sw.insert(k, w as usize);
            assert(t1.parent(x) == pp);
            assert(moved(t1, u, x, Some(w as usize), children_without(t1, x, w), children_without(t1, x, w).len() as int));
            assert(children_without(t1, x, w) == t1.children(w));
            assert(u.children(w) =~= t0.children(w).push(x as usize));
            assert(ch.remove(k + 1) =~= sw.update(k, w as usize));
            assert(siblings_without(t1, x, w) == ch.remove(k + 1));
            assert(u.siblings(w) == ch.remove(k + 1)) by {
                if siblings_without(t1, x, w) == children_without(t1, x, w) {
                    lemma_index_without(t1, x, w);
                    let j = crate::ops::index_without(t1, x, w);
                    assert(t1.children(w)[j] == w as usize);
                    assert(t1.children(w).contains(w as usize));
                    crate::reparent::lemma_children_are_childs(t1.nodes@, t1.chains@, t1.pos@, t1.depth@, w);
                    assert(node_ok(t1.nodes@, t1.chains@, t1.pos@, t1.depth@, w));
                }
            }
            assert forall|q: int| 0 <= q < t0.len() && q != w implies #[trigger] u.children(q) == (
                if pp == Some(q as usize) { sw.update(k, w as usize) } else { children_without(t0, w, q) }) by {
                assert(q < n0);
                assert(u.children(q) == children_without(t1, x, q));
                if pp == Some(q as usize) {
                    assert(t1.children(q) == ch);
                }
            }
            assert forall|m: int| 0 <= m < t0.len() && m != x && m != w implies #[trigger] u.parent(m) == t0.parent(m) by {
                assert(u.parent(m) == t1.parent(m));
            }
        }
    }
}

/// The chain of `id` once the nodes `ms` that follow `c` stand just after `id`.
pub open spec fn chain_with_inserted_after(t: Tree, c: int, id: int, ms: Seq<usize>) -> Seq<usize> {
    let rest = chain_without_moved(t, c, id);
    rest.take(t.index(id) + 1) + ms + rest.skip(t.index(id) + 1)
}

/// The children of `q` once the nodes that follow `c` stand just after node `id`.
pub open spec fn children_after_insert_after(t: Tree, c: int, id: int, q: int) -> Seq<usize> {
    if 0 <= id < t.len() && t.parent(id) == Some(q as usize) {
        chain_with_inserted_after(t, c, id, chain_from(t, c))
    } else if t.parent(c) == Some(q as usize) {
        chain_before(t, c)
    } else {
        t.children(q)
    }
}

/// Where the node placed after target `tv` comes from and goes to, for
/// `insert_siblings_after`: the chain of the target once it has left, and the target's
/// index there.
proof fn lemma_after_target(t0: Tree, cur: Tree, s: Seq<usize>, k: int, ms: Seq<usize>, i: int,
    tg: Seq<usize>, rm: Seq<usize>, bs: int, same: bool, t1i: int, tv: int, xi: int, d: int, vd: bool)
    requires
        cur.wf(),
        ms == s.skip(k),
        0 <= k < s.len(),
        0 <= i < ms.len(),
        xi == ms[i],
        forall|j: int| 0 <= j < s.len() ==> 0 <= #[trigger] s[j] < t0.len() && t0.index(s[j] as int) == j,
        cur.len() == t0.len(),
        rm == (if same { tg + ms.skip(i) } else { s.take(k) + ms.skip(i) }),
        bs == (if same { k + i } else { k }),
        same ==> tg.len() == k + i && 0 < t1i <= k,
        !same ==> tg.len() >= t1i + i,
        cur.siblings(xi) == rm,
        cur.index(xi) == bs,
        0 <= tv < cur.len(),
        cur.siblings(tv) == (if same { rm } else { tg }),
        cur.index(tv) == t1i + i - 1,
        0 <= t1i + i - 1,
        tg[t1i + i - 1] == tv,
        tv == (if i == 0 { d } else { ms[i - 1] as int }),
        i == 0 ==> vd,
        vd && !same ==> !s.contains(d as usize),
    ensures
        siblings_without(cur, xi, tv) == (if same { rm.remove(bs) } else { tg }),
        crate::ops::index_without(cur, xi, tv) == t1i + i - 1,
        !same ==> rm.remove(bs) != tg,
{
    assert(xi != tv) by {
        if i > 0 {
            assert(ms[i - 1] == s[k + i - 1]);
            assert(ms[i] == s[k + i]);
        } else if !same {
            assert(s[k + i] == xi);
        } else {
            assert(cur.index(xi) != cur.index(tv));
        }
    }
    if !same {
        // the target is not in the chain of the nodes still to move
        if cur.siblings(tv) == cur.siblings(xi) {
            assert(tg == rm);
            assert(rm[t1i + i - 1] == tv);
            if t1i + i - 1 < k {
                assert(s[t1i + i - 1] == tv);
            } else {
                assert(ms.skip(i)[t1i + i - 1 - k] == tv);
                assert(ms[t1i + i - 1 - k + i] == tv);
                assert(s[t1i + i - 1 + i] == tv);
            }
            if i == 0 {
                assert(s.contains(d as usize));
            } else {
                assert(tv == s[k + i - 1]);
            }
        }
        if rm.remove(bs) == tg {
            let r = s.take(k) + ms.skip(i + 1);
            assert(rm.remove(bs) =~= r);
            assert(r[t1i + i - 1] == tv);
            if t1i + i - 1 < k {
                assert(s[t1i + i - 1] == tv);
            } else {
                assert(ms[t1i + i - 1 - k + i + 1] == tv);
                assert(s[t1i + i + i] == tv);
            }
            if i == 0 {
                assert(s.contains(d as usize));
            } else {
                assert(tv == s[k + i - 1]);
            }
        }
    }
}

/// The facts about the starting tree that `insert_siblings_after` relies on.
pub open spec fn after_setup(t0: Tree, s: Seq<usize>, k: int, ms: Seq<usize>, p: Option<usize>, vd: bool,
    qd: Option<usize>, same: bool, tp: Seq<usize>, t1i: int, ti: int, d: int) -> bool {
    &&& t0.wf()
    &&& ms == s.skip(k)
    &&& 0 <= k < s.len()
    &&& s.take(k) + ms == s
    &&& forall|j: int| 0 <= j < s.len() ==> {
        &&& 0 <= #[trigger] s[j] < t0.len()
        &&& t0.siblings(s[j] as int) == s
        &&& t0.index(s[j] as int) == j
        &&& t0.parent(s[j] as int) == p
    }
    &&& (p matches Some(pq) ==> t0.children(pq as int) == s)
    &&& !ms.contains(d as usize)
    &&& vd == (0 <= d < t0.len())
    &&& vd ==> qd == t0.parent(d) && t0.siblings(d) == (if same { s } else { tp }) && ti == t0.index(d)
    &&& vd ==> (qd matches Some(qq) ==> t0.children(qq as int) == t0.siblings(d))
    &&& t1i == (if vd { ti + 1 } else { 0 })
    &&& !vd ==> qd is None && tp == Seq::<usize>::empty() && !same
    &&& same ==> vd && tp == s.take(k) && ti < k && qd == p
    &&& vd ==> 0 <= ti < tp.len() && tp[ti] == d
    &&& vd && !same ==> !s.contains(d as usize)
    &&& vd && !same && p is Some ==> p != qd
}

/// The state of `insert_siblings_after` once the first `i` nodes of `ms` stand after the
/// target: `tv`, the node placed last (`id` at the start).
#[verifier::opaque]
pub open spec fn after_state(t0: Tree, t: Tree, s: Seq<usize>, k: int, ms: Seq<usize>, i: int, p: Option<usize>,
    vd: bool, qd: Option<usize>, same: bool, tp: Seq<usize>, t1i: int, ti: int, d: int, tv: int) -> bool {
    let tg = tp.take(t1i) + ms.take(i) + tp.skip(t1i);
    let rm = if same { tg + ms.skip(i) } else { s.take(k) + ms.skip(i) };
    let bs = if same { k + i } else { k };
    &&& t.wf()
    &&& t.len() == t0.len()
    &&& t.same_data(&t0)
    &&& parents_moved(t0, t, ms, i, qd)
    &&& rest_in_chain(t0, t, ms, i, rm, bs, p)
    &&& children_moved(t0, t, vd, qd, p, same, tg, ms.skip(i), s.take(k))
    &&& tv == (if i == 0 { d } else { ms[i - 1] as int })
    &&& (vd || i > 0) ==> (t.siblings(tv) == (if same { rm } else { tg }) && t.index(tv) == t1i + i - 1
        && t.parent(tv) == qd && 0 <= tv < t0.len())
    &&& vd ==> (t.siblings(d) == (if same { rm } else { tg }) && t.index(d) == ti && t.parent(d) == qd)
    &&& vd ==> (qd matches Some(qq) ==> forall|j: int| i <= j < ms.len() ==> !t.is_inclusive_descendant(qq as int, #[trigger] ms[j] as int))
}

proof fn lemma_after_pre(t0: Tree, cur: Tree, s: Seq<usize>, k: int, ms: Seq<usize>, i: int, p: Option<usize>,
    vd: bool, qd: Option<usize>, same: bool, tp: Seq<usize>, t1i: int, ti: int, d: int, tv: int)
    requires
        after_setup(t0, s, k, ms, p, vd, qd, same, tp, t1i, ti, d),
        after_state(t0, cur, s, k, ms, i, p, vd, qd, same, tp, t1i, ti, d, tv),
        0 <= i < ms.len(),
    ensures
        0 <= ms[i] < cur.len(),
        cur.next(ms[i] as int) == (if i + 1 < ms.len() { Some(ms[i + 1]) } else { None }),
        ms[i] != tv,
        (vd || i > 0) ==> 0 <= tv < cur.len() && cur.parent(tv) == qd,
        (vd || i > 0) ==> (qd matches Some(qq) ==> !cur.is_inclusive_descendant(qq as int, ms[i] as int)),
{
    reveal(after_state);
    reveal(rest_in_chain);
    let tg = tp.take(t1i) + ms.take(i) + tp.skip(t1i);
    let rm = if same { tg + ms.skip(i) } else { s.take(k) + ms.skip(i) };
    let bs = if same { k + i } else { k };
    let xi = ms[i] as int;
    assert(ms.skip(i)[0] == ms[i]);
    assert(cur.siblings(xi) == rm && cur.index(xi) == bs);
    if same {
        assert(tg.len() == k + i);
        assert(rm[k + i] == ms[i]);
        if i + 1 < ms.len() {
            assert(rm[k + i + 1] == ms[i + 1]);
        }
    } else {
        assert(rm[k] == ms[i]);
        if i + 1 < ms.len() {
            assert(rm[k + 1] == ms[i + 1]);
        }
    }
    lemma_in_chain(cur, xi, rm, bs);
    if i > 0 {
        assert(ms[i - 1] == s[k + i - 1]);
        assert(ms[i] == s[k + i]);
    } else {
        assert(ms[i] == s[k]);
    }
    if !vd && i > 0 {
        assert(qd is None);
    }
}

#[verifier::rlimit(100)]
#[verifier::spinoff_prover]
proof fn lemma_after_step(t0: Tree, cur: Tree, u: Tree, s: Seq<usize>, k: int, ms: Seq<usize>, i: int, p: Option<usize>,
    vd: bool, qd: Option<usize>, same: bool, tp: Seq<usize>, t1i: int, ti: int, d: int, tv: int)
    requires
        after_setup(t0, s, k, ms, p, vd, qd, same, tp, t1i, ti, d),
        after_state(t0, cur, s, k, ms, i, p, vd, qd, same, tp, t1i, ti, d, tv),
        0 <= i < ms.len(),
        t0.len() <= usize::MAX,
        (vd || i > 0) ==> moved(cur, u, ms[i] as int, qd, siblings_without(cur, ms[i] as int, tv),
            crate::ops::index_without(cur, ms[i] as int, tv) + 1),
        !(vd || i > 0) ==> detached(cur, u, ms[i] as int),
    ensures
        after_state(t0, u, s, k, ms, i + 1, p, vd, qd, same, tp, t1i, ti, d, ms[i] as int),
{
    reveal(after_state);
    lemma_after_pre(t0, cur, s, k, ms, i, p, vd, qd, same, tp, t1i, ti, d, tv);
    reveal(after_state);
    reveal(rest_in_chain);
    let xi = ms[i] as int;
    let tg = tp.take(t1i) + ms.take(i) + tp.skip(t1i);
    let tg1 = tp.take(t1i) + ms.take(i + 1) + tp.skip(t1i);
    let rm = if same { tg + ms.skip(i) } else { s.take(k) + ms.skip(i) };
    let bs = if same { k + i } else { k };
    let rm1 = if same { tg1 + ms.skip(i + 1) } else { s.take(k) + ms.skip(i + 1) };
    let ins = if same { tg1 + ms.skip(i + 1) } else { tg1 };
    let sw = siblings_without(cur, xi, tv);
    assert(cur.siblings(xi) == rm && cur.index(xi) == bs && cur.parent(xi) == p) by {
        assert(ms.skip(i)[0] == ms[i]);
    }
    assert(rm.remove(bs) =~= (if same { tg + ms.skip(i + 1) } else { s.take(k) + ms.skip(i + 1) }));
    if vd || i > 0 {
        assert(tg[t1i + i - 1] == tv) by {
            if i > 0 {
                assert(tg[t1i + i - 1] == ms.take(i)[i - 1]);
            } else {
                assert(tg[t1i - 1] == tp[ti]);
            }
        }
        if same {
            assert(tg.len() == k + i);
        } else {
            assert(tg.len() >= t1i + i);
        }
        lemma_after_target(t0, cur, s, k, ms, i, tg, rm, bs, same, t1i, tv, xi, d, vd);
        if same {
            assert((tg + ms.skip(i + 1)).insert(t1i + i, xi as usize) =~= ins);
        } else {
            assert(tg.insert(t1i + i, xi as usize) =~= ins);
        }
        assert(sw.insert(crate::ops::index_without(cur, xi, tv) + 1, xi as usize) == ins);
        assert(u.siblings(xi) == ins);
    } else {
        assert(u.siblings(xi) == seq![xi as usize]);
        assert(ins =~= seq![xi as usize]);
    }
    lemma_parents_step(t0, cur, u, ms, i, qd);
    let bs1 = if same { k + i + 1 } else { k };
    assert forall|j: int| i < j < ms.len() implies 0 <= bs1 + j - (i + 1) < rm1.len()
        && #[trigger] rm1[bs1 + j - (i + 1)] == ms[j] by {
        if same {
            assert(tg1.len() == k + i + 1);
        }
    }
    lemma_rest_step(t0, cur, u, ms, i, rm, bs, p, sw, ins, vd || i > 0, rm1, bs1);
    assert((s.take(k) + ms.skip(i)).remove(k) =~= s.take(k) + ms.skip(i + 1));
    assert(ms.skip(i).remove(0) =~= ms.skip(i + 1));
    assert(p is Some && !(vd && qd == p) ==> cur.index(xi) == s.take(k).len());
    lemma_children_step(t0, cur, u, xi, vd, qd, p, same, tg, ms.skip(i), s.take(k), ins, tg1, ms.skip(i + 1));
    // the node just placed is the next target
    assert(ins[t1i + i] == xi);
    lemma_in_chain(u, xi, ins, t1i + i);
    assert(u.parent(xi) == qd);
    if vd {
        if i == 0 {
            assert(tv == d);
            assert(u.siblings(d) == ins);
        } else {
            assert(cur.siblings(d) == cur.siblings(tv));
            assert(d != xi);
            if siblings_without(cur, xi, d) != sw {
                assert(siblings_without(cur, xi, d) == cur.siblings(d));
            }
            assert(u.siblings(d) == ins);
        }
        assert(ins[ti] == d);
        lemma_in_chain(u, d, ins, ti);
        assert(u.parent(d) == qd);
        if let Some(qq) = qd {
            assert(node_ok(cur.nodes@, cur.chains@, cur.pos@, cur.depth@, d));
            assert forall|j: int| i + 1 <= j < ms.len() implies !u.is_inclusive_descendant(qq as int, #[trigger] ms[j] as int) by {
                lemma_ancestry_kept(cur, u, xi, qq as int, ms[j] as int);
            }
        }
    }
    assert(u.same_data(&t0));
}

impl TreeNodeOps {
    /// Inserts node `new_node_id` and the siblings that follow it just after node `id`,
    /// in order. For an id out of the tree they leave their parent and form a chain of
    /// siblings of their own.
    pub fn insert_siblings_after(tree: &mut Tree, id: &NodeId, new_node_id: &NodeId)
        requires
            old(tree).wf(),
            old(tree).valid(new_node_id.value as int),
            !chain_from(*old(tree), new_node_id.value as int).contains(id.value),
            old(tree).valid(id.value as int) ==> (old(tree).parent(id.value as int) matches Some(q) ==>
                forall|j: int| 0 <= j < chain_from(*old(tree), new_node_id.value as int).len()
                    ==> !old(tree).is_inclusive_descendant(q as int, #[trigger] chain_from(*old(tree), new_node_id.value as int)[j] as int)),
        ensures
            final(tree).wf(),
            final(tree).same_data(&*old(tree)),
            forall|m: int| 0 <= m < old(tree).len() ==> #[trigger] final(tree).parent(m) == (
                if chain_from(*old(tree), new_node_id.value as int).contains(m as usize) {
                    if old(tree).valid(id.value as int) { old(tree).parent(id.value as int) } else { None }
                } else {
                    old(tree).parent(m)
                }),
            forall|q: int| 0 <= q < old(tree).len() ==> #[trigger] final(tree).children(q) == children_after_insert_after(
                *old(tree), new_node_id.value as int, id.value as int, q),
            old(tree).valid(id.value as int) ==> final(tree).siblings(id.value as int) == chain_with_inserted_after(
                *old(tree), new_node_id.value as int, id.value as int, chain_from(*old(tree), new_node_id.value as int)),
            !old(tree).valid(id.value as int) ==> final(tree).siblings(new_node_id.value as int)
                == chain_from(*old(tree), new_node_id.value as int),
    {
        let n0 = tree.nodes.len();
        let ghost t0 = *tree;
        let ghost c = new_node_id.value as int;
        let ghost d = id.value as int;
        let ghost s = t0.siblings(c);
        let ghost k = t0.index(c);
        let ghost ms = chain_from(t0, c);
        let ghost p = t0.parent(c);
        let ghost vd = t0.valid(d);
        let ghost tt = if vd { t0.siblings(d) } else { Seq::empty() };
        let ghost ti = if vd { t0.index(d) } else { 0 };
        let ghost t1i = if vd { ti + 1 } else { 0 };
        let ghost qd = if vd { t0.parent(d) } else { None };
        let ghost same = vd && tt == s;
        let ghost tp = if same { s.take(k) } else { tt };
        proof {
            lemma_chain_members(t0, c);
            assert(s.take(k) + ms =~= s);
            assert forall|j: int| 0 <= j < s.len() implies {
                &&& 0 <= #[trigger] s[j] < t0.len()
                &&& t0.siblings(s[j] as int) == s
                &&& t0.index(s[j] as int) == j
                &&& t0.parent(s[j] as int) == p
            } by {}
            if let Some(pq) = p {
                assert(t0.children(pq as int) == s);
            }
            if vd {
                lemma_chain_members(t0, d);
                if same {
                    assert(s[ti] == d);
                    assert(t0.parent(s[ti] as int) == p);
                    if ti >= k {
                        assert(ms[ti - k] == d);
                        assert(ms.contains(id.value));
                    }
                    assert(tp[ti] == d);
                } else {
                    if s.contains(id.value) {
                        let w = choose|w: int| 0 <= w < s.len() && #[trigger] s[w] == id.value;
                        assert(t0.siblings(d) == s);
                    }
                    assert(tp[ti] == d);
                    if p is Some && p == qd {
                        assert(t0.children(p.unwrap() as int) == s);
                        assert(t0.children(p.unwrap() as int) == tt);
                    }
                }
            }
            assert(after_setup(t0, s, k, ms, p, vd, qd, same, tp, t1i, ti, d));
            reveal(after_state);
            reveal(parents_moved);
            reveal(rest_in_chain);
            reveal(children_moved);
            let tg0 = tp.take(t1i) + ms.take(0) + tp.skip(t1i);
            assert(tg0 =~= tp);
            assert(ms.skip(0) =~= ms);
            assert forall|j: int| 0 <= j < ms.len() implies {
                &&& 0 <= #[trigger] ms[j] < t0.len()
                &&& t0.siblings(ms[j] as int) == (if same { tg0 + ms.skip(0) } else { s.take(k) + ms.skip(0) })
                &&& t0.index(ms[j] as int) == (if same { k + 0 } else { k }) + j - 0
                &&& t0.parent(ms[j] as int) == p
            } by {
                assert(ms[j] == s[k + j]);
            }
            assert forall|q: int| 0 <= q < t0.len() implies #[trigger] t0.children(q) == (if vd && qd == Some(q as usize) {
                if same { tg0 + ms.skip(0) } else { tg0 }
            } else if p == Some(q as usize) {
                s.take(k) + ms.skip(0)
            } else {
                t0.children(q)
            }) by {
                if vd && qd == Some(q as usize) {
                    assert(t0.children(q) == tt);
                } else if p == Some(q as usize) {
                    assert(t0.children(q) == s);
                }
            }
            assert(after_state(t0, t0, s, k, ms, 0, p, vd, qd, same, tp, t1i, ti, d, d));
        }
        let mut next: Option<NodeId> = Some(*new_node_id);
        let mut target: NodeId = *id;
        let ghost mut i: int = 0;
        while next.is_some()
            invariant
                t0.len() == n0,
                0 <= i <= ms.len(),
                ms == chain_from(t0, c),
                vd == t0.valid(d),
                d == id.value as int,
                qd == (if vd { t0.parent(d) } else { None }),
                after_setup(t0, s, k, ms, p, vd, qd, same, tp, t1i, ti, d),
                after_state(t0, *tree, s, k, ms, i, p, vd, qd, same, tp, t1i, ti, d, target.value as int),
                next == (if i < ms.len() { Some(NodeId { value: ms[i] }) } else { None }),
            decreases ms.len() - i,
        {
            let x = next.unwrap();
            let ghost cur = *tree;
            proof {
                lemma_after_pre(t0, cur, s, k, ms, i, p, vd, qd, same, tp, t1i, ti, d, target.value as int);
                reveal(after_state);
            }
            next = tree.nodes[x.value].next_sibling;
            TreeNodeOps::insert_after_of(tree, &target, &x);
            proof {
                lemma_after_step(t0, cur, *tree, s, k, ms, i, p, vd, qd, same, tp, t1i, ti, d, target.value as int);
            }
            target = x;
            proof {
                i = i + 1;
            }
        }
        proof {
            reveal(after_state);
            reveal(parents_moved);
            reveal(children_moved);
            assert(i == ms.len());
            assert(ms.take(i) =~= ms);
            assert(ms.skip(i) =~= Seq::<usize>::empty());
            let tg = tp.take(t1i) + ms + tp.skip(t1i);
            if vd {
                assert(chain_without_moved(t0, c, d) == tp);
                assert(chain_with_inserted_after(t0, c, d, ms) == tg);
                if same {
                    assert(tg + ms.skip(i) =~= tg);
                    assert(tp.take(t1i) + ms.take(i) + tp.skip(t1i) + ms.skip(i) =~= tg);
                }
            } else {
                assert(tg =~= ms);
                if ms.len() > 0 {
                    assert(tree.siblings(target.value as int) == ms);
                    lemma_chain_members(t0, c);
                    assert(ms[0] == c);
                    lemma_chain_members(*tree, target.value as int);
                    assert(tree.siblings(target.value as int)[0] == c);
                }
            }
            assert forall|q: int| 0 <= q < t0.len() implies #[trigger] tree.children(q) == children_after_insert_after(
                t0, c, d, q) by {
                if vd && qd == Some(q as usize) {
                    if same {
                        assert(tp.take(t1i) + ms.take(i) + tp.skip(t1i) + ms.skip(i) =~= tg);
                    }
                } else if p == Some(q as usize) {
                    assert(s.take(k) + ms.skip(i) =~= chain_before(t0, c));
                }
            }
            assert forall|m: int| 0 <= m < t0.len() implies #[trigger] tree.parent(m) == (
                if ms.contains(m as usize) { qd } else { t0.parent(m) }) by {}
        }
    }
}

impl TreeNodeOps {
    /// Puts node `new_child_id` and all its siblings, in order, before the children of
    /// node `id`. For an id out of the tree they are only detached, each on its own.
    #[verifier::spinoff_prover]
    pub fn prepend_children_of(tree: &mut Tree, id: &NodeId, new_child_id: &NodeId)
        requires
            old(tree).wf(),
            old(tree).valid(new_child_id.value as int),
            old(tree).parent(new_child_id.value as int) != Some(id.value),
            old(tree).valid(id.value as int) ==> forall|j: int| 0 <= j < old(tree).siblings(new_child_id.value as int).len()
                ==> !old(tree).is_inclusive_descendant(id.value as int, #[trigger] old(tree).siblings(new_child_id.value as int)[j] as int),
        ensures
            final(tree).wf(),
            final(tree).same_data(&*old(tree)),
            forall|m: int| 0 <= m < old(tree).len() ==> #[trigger] final(tree).parent(m) == (
                if old(tree).siblings(new_child_id.value as int).contains(m as usize) {
                    if old(tree).valid(id.value as int) { Some(id.value) } else { None }
                } else {
                    old(tree).parent(m)
                }),
            forall|q: int| 0 <= q < old(tree).len() ==> #[trigger] final(tree).children(q) == (
                if old(tree).parent(new_child_id.value as int) == Some(q as usize) {
                    Seq::empty()
                } else if q == id.value {
                    old(tree).siblings(new_child_id.value as int) + old(tree).children(q)
                } else {
                    old(tree).children(q)
                }),
    {
        let n0 = tree.nodes.len();
        let ghost t0 = *tree;
        let ghost c = new_child_id.value as int;
        let ghost s = t0.siblings(c);
        let ghost p = t0.parent(c);
        let ghost vd = t0.valid(id.value as int);
        let ghost target = if vd { Some(id.value) } else { None };
        proof {
            lemma_chain_members(t0, c);
        }
        let last = TreeNodeOps::last_sibling_of(tree, new_child_id);
        let mut prev: Option<NodeId> = match last {
            Some(l) => Some(l),
            None => Some(*new_child_id),
        };
        let ghost mut i: int = s.len() as int;
        proof {
            assert(prev == Some(NodeId { value: s[s.len() - 1] })) by {
                if last is None {
                    assert(t0.index(c) + 1 >= s.len());
                }
            }
            assert(s.take(s.len() as int) =~= s);
            assert(s.skip(s.len() as int) =~= Seq::<usize>::empty());
            assert forall|q: int| 0 <= q < t0.len() implies #[trigger] t0.children(q) == (
                if p == Some(q as usize) { s.take(i) } else if q == id.value { s.skip(i) + t0.children(q) } else { t0.children(q) }) by {
                if q == id.value {
                    assert(s.skip(i) + t0.children(q) =~= t0.children(q));
                }
            }
            assert forall|m: int| 0 <= m < t0.len() implies #[trigger] t0.parent(m) == (
                if s.skip(i).contains(m as usize) { target } else { t0.parent(m) }) by {}
        }
        while prev.is_some()
            invariant
                tree.wf(),
                t0.wf(),
                tree.len() == t0.len(),
                t0.len() == n0,
                tree.same_data(&t0),
                0 <= c < t0.len(),
                s == t0.siblings(c),
                p == t0.parent(c),
                p != Some(id.value),
                vd == t0.valid(id.value as int),
                target == (if vd { Some(id.value) } else { None }),
                vd ==> forall|j: int| 0 <= j < s.len() ==> !t0.is_inclusive_descendant(id.value as int, #[trigger] s[j] as int),
                forall|j: int| 0 <= j < s.len() ==> {
                    &&& 0 <= #[trigger] s[j] < t0.len()
                    &&& t0.siblings(s[j] as int) == s
                    &&& t0.index(s[j] as int) == j
                    &&& t0.parent(s[j] as int) == p
                },
                p matches Some(pq) ==> t0.children(pq as int) == s,
                0 <= i <= s.len(),
                prev == (if i > 0 { Some(NodeId { value: s[i - 1] }) } else { None }),
                forall|j: int| 0 <= j < i ==> {
                    &&& tree.siblings(#[trigger] s[j] as int) == s.take(i)
                    &&& tree.index(s[j] as int) == j
                    &&& tree.parent(s[j] as int) == p
                },
                forall|m: int| 0 <= m < t0.len() ==> #[trigger] tree.parent(m) == (
                    if s.skip(i).contains(m as usize) { target } else { t0.parent(m) }),
                forall|q: int| 0 <= q < t0.len() ==> #[trigger] tree.children(q) == (
                    if p == Some(q as usize) { s.take(i) } else if q == id.value { s.skip(i) + t0.children(q) } else { t0.children(q) }),
                vd ==> forall|j: int| 0 <= j < i ==> !tree.is_inclusive_descendant(id.value as int, #[trigger] s[j] as int),
            decreases i,
        {
            let x = prev.unwrap();
            let ghost cur = *tree;
            let ghost xi = x.value as int;
            proof {
                assert(xi == s[i - 1]);
                assert(cur.siblings(xi) == s.take(i));
                lemma_in_chain(cur, xi, s.take(i), i - 1);
                if i >= 2 {
                    assert(s.take(i)[i - 2] == s[i - 2]);
                }
            }
            prev = tree.nodes[x.value].prev_sibling;
            TreeNodeOps::prepend_child_of(tree, id, &x);
            proof {
                let u = *tree;
                let r = s.take(i - 1);
                assert(s.take(i).remove(i - 1) =~= r);
                assert(siblings_without(cur, xi, xi) == seq![xi as usize]);
                if vd {
                    let sw = children_without(cur, xi, id.value as int);
                    assert(moved(cur, u, xi, Some(id.value), sw, 0));
                    assert(sw == cur.children(id.value as int));
                    crate::reparent::lemma_children_are_childs(cur.nodes@, cur.chains@, cur.pos@, cur.depth@, id.value as int);
                } else {
                    assert(detached(cur, u, xi));
                }
                assert forall|j: int| 0 <= j < i - 1 implies {
                    &&& u.siblings(#[trigger] s[j] as int) == r
                    &&& u.index(s[j] as int) == j
                    &&& u.parent(s[j] as int) == p
                } by {
                    let m = s[j] as int;
                    assert(cur.siblings(m) == s.take(i) && cur.index(m) == j);
                    assert(m != xi);
                    assert(siblings_without(cur, xi, m) == r);
                    if vd {
                        let sw = children_without(cur, xi, id.value as int);
                        if r == sw {
                            assert(r[j] == s[j]);
                            assert(sw.contains(s[j]));
                        }
                    }
                    assert(u.siblings(m) == r);
                    assert(r[j] == s[j]);
                    lemma_in_chain(u, m, r, j);
                }
                assert forall|m: int| 0 <= m < t0.len() implies #[trigger] u.parent(m) == (
                    if s.skip(i - 1).contains(m as usize) { target } else { t0.parent(m) }) by {
                    if m != xi {
                        assert(u.parent(m) == cur.parent(m));
                        if s.skip(i).contains(m as usize) {
                            let w = choose|w: int| 0 <= w < s.skip(i).len() && #[trigger] s.skip(i)[w] == m as usize;
                            assert(s.skip(i - 1)[w + 1] == m as usize);
                        }
                        if s.skip(i - 1).contains(m as usize) {
                            let w = choose|w: int| 0 <= w < s.skip(i - 1).len() && #[trigger] s.skip(i - 1)[w] == m as usize;
                            assert(s.skip(i - 1)[0] == s[i - 1]);
                            assert(w != 0);
                            assert(s.skip(i)[w - 1] == m as usize);
                        }
                    } else {
                        assert(s.skip(i - 1)[0] == m as usize);
                    }
                }
                assert forall|q: int| 0 <= q < t0.len() implies #[trigger] u.children(q) == (
                    if p == Some(q as usize) { r } else if q == id.value { s.skip(i - 1) + t0.children(q) } else { t0.children(q) }) by {
                    assert(q < n0);
                    if p == Some(q as usize) {
                        assert(children_without(cur, xi, q) == s.take(i).remove(i - 1));
                    } else if q == id.value {
                        assert(s.skip(i - 1) + t0.children(q) =~= (s.skip(i) + t0.children(q)).insert(0, xi as usize));
                    } else {
                        assert(children_without(cur, xi, q) == cur.children(q));
                    }
                }
                if vd {
                    assert forall|j: int| 0 <= j < i - 1 implies !u.is_inclusive_descendant(id.value as int, #[trigger] s[j] as int) by {
                        lemma_ancestry_kept(cur, u, xi, id.value as int, s[j] as int);
                    }
                }
                assert(u.same_data(&t0));
            }
            proof {
                i = i - 1;
            }
        }
        proof {
            assert(i == 0);
            assert(s.skip(0) =~= s);
            assert(s.take(0) =~= Seq::<usize>::empty());
        }
    }
}

} // verus!
