//! Taking a node out of its chain of siblings: the new links and the new model.
use vstd::prelude::*;
use crate::node::{NodeId, TreeNode};
use crate::tree::{par, prv, nxt, fst, lst, links_ok, chain_ok, member_ok, parent_ok, child_ok, depth_ok, node_ok, wf_parts, is_desc};

verus! {

/// Slot `m` once node `x` has left its parent and its siblings.
pub open spec fn detach_node_at(n: Seq<TreeNode>, x: int, m: int) -> TreeNode {
    let id = NodeId { value: x as usize };
    let nx = n[x];
    let nm = n[m];
    if m == x {
        TreeNode { parent: None, prev_sibling: None, next_sibling: None, ..nm }
    } else {
        TreeNode {
            first_child: if par(n, x) == Some(m as usize) && nm.first_child == Some(id) {
                nx.next_sibling
            } else {
                nm.first_child
            },
            last_child: if par(n, x) == Some(m as usize) && nm.last_child == Some(id) {
                nx.prev_sibling
            } else {
                nm.last_child
            },
            next_sibling: if prv(n, x) == Some(m as usize) { nx.next_sibling } else { nm.next_sibling },
            prev_sibling: if nxt(n, x) == Some(m as usize) { nx.prev_sibling } else { nm.prev_sibling },
            ..nm
        }
    }
}

pub open spec fn detach_nodes(n: Seq<TreeNode>, x: int) -> Seq<TreeNode> {
    Seq::new(n.len(), |m: int| detach_node_at(n, x, m))
}

pub open spec fn detach_chain(c: Seq<Seq<usize>>, p: Seq<nat>, x: int, m: int) -> Seq<usize> {
    if m == x {
        seq![x as usize]
    } else if c[m] == c[x] {
        c[x].remove(p[x] as int)
    } else {
        c[m]
    }
}

pub open spec fn detach_pos(c: Seq<Seq<usize>>, p: Seq<nat>, x: int, m: int) -> nat {
    if m == x {
        0
    } else if c[m] == c[x] && p[m] > p[x] {
        (p[m] - 1) as nat
    } else {
        p[m]
    }
}

pub open spec fn detach_chains(c: Seq<Seq<usize>>, p: Seq<nat>, x: int) -> Seq<Seq<usize>> {
    Seq::new(c.len(), |m: int| detach_chain(c, p, x, m))
}

pub open spec fn detach_poss(c: Seq<Seq<usize>>, p: Seq<nat>, x: int) -> Seq<nat> {
    Seq::new(p.len(), |m: int| detach_pos(c, p, x, m))
}

/// Facts about the neighbourhood of a node in a well-formed arena.
pub proof fn lemma_neighbours(n: Seq<TreeNode>, c: Seq<Seq<usize>>, p: Seq<nat>, d: Seq<nat>, x: int)
    requires
        wf_parts(n, c, p, d),
        0 <= x < n.len(),
    ensures
        par(n, x) != Some(x as usize),
        forall|j: int| #![trigger c[x][j]] 0 <= j < c[x].len() ==> c[x][j] < n.len() && c[c[x][j] as int] == c[x] && p[c[x][j] as int] == j,
        forall|j: int| 0 <= j < c[x].len() ==> #[trigger] par(n, c[x][j] as int) == par(n, x),
        forall|m: int| 0 <= m < n.len() && #[trigger] c[m] == c[x] ==> c[x][p[m] as int] == m && p[m] < c[x].len(),
        forall|m: int| 0 <= m < n.len() && c[m] == c[x] ==> #[trigger] par(n, m) == par(n, x),
        par(n, x) matches Some(q) ==> forall|m: int| 0 <= m < n.len() && #[trigger] par(n, m) == Some(q) ==> c[m] == c[x],
        par(n, x) matches Some(q) ==> !(#[trigger] c[q as int] == c[x]),
        forall|m: int, j: int| 0 <= m < n.len() && 0 <= j < c[m].len() && #[trigger] c[m][j] == x ==> c[m] == c[x],
{
    assert(node_ok(n, c, p, d, x));
    assert forall|j: int| #![trigger c[x][j]] 0 <= j < c[x].len() implies c[x][j] < n.len() && c[c[x][j] as int] == c[x] && p[c[x][j] as int] == j by {
        assert(member_ok(n.len(), c, p, x, j));
    }
    assert forall|j: int| 0 <= j < c[x].len() implies #[trigger] par(n, c[x][j] as int) == par(n, x) by {
        assert(member_ok(n.len(), c, p, x, j));
        assert(member_ok(n.len(), c, p, x, 0));
        assert(node_ok(n, c, p, d, c[x][j] as int));
    }
    assert forall|m: int| 0 <= m < n.len() && #[trigger] c[m] == c[x] implies c[x][p[m] as int] == m && p[m] < c[x].len() by {
        assert(node_ok(n, c, p, d, m));
    }
    assert forall|m: int| 0 <= m < n.len() && c[m] == c[x] implies #[trigger] par(n, m) == par(n, x) by {
        assert(node_ok(n, c, p, d, m));
        assert(member_ok(n.len(), c, p, x, 0));
    }
    if let Some(q) = par(n, x) {
        assert(node_ok(n, c, p, d, q as int));
        assert forall|m: int| 0 <= m < n.len() && #[trigger] par(n, m) == Some(q) implies c[m] == c[x] by {
            assert(node_ok(n, c, p, d, m));
            assert(member_ok(n.len(), c, p, m, 0));
            assert(member_ok(n.len(), c, p, x, 0));
        }
        if c[q as int] == c[x] {
            assert(node_ok(n, c, p, d, q as int));
            assert(member_ok(n.len(), c, p, x, 0));
            assert(node_ok(n, c, p, d, c[x][0] as int));
        }
    }
    assert forall|m: int, j: int| 0 <= m < n.len() && 0 <= j < c[m].len() && #[trigger] c[m][j] == x implies c[m] == c[x] by {
        assert(member_ok(n.len(), c, p, m, j));
    }
}

pub proof fn lemma_detach_node(n: Seq<TreeNode>, c: Seq<Seq<usize>>, p: Seq<nat>, d: Seq<nat>, x: int, m: int)
    requires
        wf_parts(n, c, p, d),
        0 <= x < n.len(),
        0 <= m < n.len(),
    ensures
        node_ok(detach_nodes(n, x), detach_chains(c, p, x), detach_poss(c, p, x), d, m),
{
    let n2 = detach_nodes(n, x);
    let c2 = detach_chains(c, p, x);
    let p2 = detach_poss(c, p, x);
    let s = c[x];
    let i = p[x] as int;
    let len = n.len();
    lemma_neighbours(n, c, p, d, x);
    assert(node_ok(n, c, p, d, x));
    let s2 = s.remove(i);
    assert(node_ok(n, c, p, d, m));
    assert(n2[m] == detach_node_at(n, x, m));
    if m == x {
        lemma_detach_self_at(n, c, p, d, x, m);
    } else if c[m] == s {
        lemma_detach_member(n, c, p, d, x, m);
    } else {
        lemma_detach_other(n, c, p, d, x, m);
    }
}

proof fn lemma_detach_self_at(n: Seq<TreeNode>, c: Seq<Seq<usize>>, p: Seq<nat>, d: Seq<nat>, x: int, m: int)
    requires
        wf_parts(n, c, p, d),
        0 <= x < n.len(),
        0 <= m < n.len(),
        m == x,
    ensures
        node_ok(detach_nodes(n, x), detach_chains(c, p, x), detach_poss(c, p, x), d, m),
{
    let n2 = detach_nodes(n, x);
    let c2 = detach_chains(c, p, x);
    let p2 = detach_poss(c, p, x);
    let s = c[x];
    let i = p[x] as int;
    let len = n.len();
    lemma_neighbours(n, c, p, d, x);
    assert(node_ok(n, c, p, d, x));
    let s2 = s.remove(i);
    assert(node_ok(n, c, p, d, m));
    assert(n2[m] == detach_node_at(n, x, m));
            if let Some(f) = fst(n, x) {
                assert(node_ok(n, c, p, d, f as int));
                assert(c[f as int] != s);
            }
            if let Some(l) = lst(n, x) {
                assert(node_ok(n, c, p, d, l as int));
            }
}

proof fn lemma_detach_member(n: Seq<TreeNode>, c: Seq<Seq<usize>>, p: Seq<nat>, d: Seq<nat>, x: int, m: int)
    requires
        wf_parts(n, c, p, d),
        0 <= x < n.len(),
        0 <= m < n.len(),
        m != x,
        c[m] == c[x],
    ensures
        node_ok(detach_nodes(n, x), detach_chains(c, p, x), detach_poss(c, p, x), d, m),
{
    let n2 = detach_nodes(n, x);
    let c2 = detach_chains(c, p, x);
    let p2 = detach_poss(c, p, x);
    let s = c[x];
    let i = p[x] as int;
    let len = n.len();
    lemma_neighbours(n, c, p, d, x);
    assert(node_ok(n, c, p, d, x));
    let s2 = s.remove(i);
    assert(node_ok(n, c, p, d, m));
    assert(n2[m] == detach_node_at(n, x, m));
            let k = p[m] as int;
            assert(s[k] == m);
            assert(k != i);
            assert(par(n, m) == par(n, x));
            if let Some(q) = par(n, m) {
                assert(m != q);
            }
            if let Some(f) = fst(n, m) {
                assert(node_ok(n, c, p, d, f as int));
                assert(c[f as int] != s);
                assert(f != x);
            }
            if let Some(l) = lst(n, m) {
                assert(node_ok(n, c, p, d, l as int));
                assert(l != x);
            }
            assert(c2[m] == s2);
            if k < i {
                assert(p2[m] == k);
                assert(s2[k] == m);
            } else {
                assert(p2[m] == k - 1);
                assert(s2[k - 1] == m);
            }
            assert(chain_ok(n2, c2, p2, m)) by {
                if i + 1 < s.len() {
                    assert(c[s[i + 1] as int] == s && p[s[i + 1] as int] == i + 1);
                    assert(nxt(n, x) == Some(s[i + 1]));
                } else {
                    assert(nxt(n, x).is_none());
                }
                assert((nxt(n, x) == Some(m as usize)) == (k == i + 1));
                if i > 0 {
                    assert(c[s[i - 1] as int] == s && p[s[i - 1] as int] == i - 1);
                    assert(prv(n, x) == Some(s[i - 1]));
                } else {
                    assert(prv(n, x).is_none());
                }
                assert((prv(n, x) == Some(m as usize)) == (k == i - 1));
                if k > 0 {
                    assert(s[k - 1] < len);
                }
                if k + 1 < s.len() {
                    assert(s[k + 1] < len);
                }
                let k2 = p2[m] as int;
                if k2 > 0 {
                    if k < i {
                        assert(s2[k2 - 1] == s[k - 1]);
                    } else if k == i + 1 {
                        assert(s2[k2 - 1] == s[i - 1]);
                    } else {
                        assert(s2[k2 - 1] == s[k - 1]);
                    }
                }
                if k2 + 1 < s2.len() {
                    if k + 1 < i {
                        assert(s2[k2 + 1] == s[k + 1]);
                    } else if k + 1 == i {
                        assert(s2[k2 + 1] == s[i + 1]);
                    } else {
                        assert(s2[k2 + 1] == s[k + 1]);
                    }
                }
                if i > 0 {
                    assert(s2[0] == s[0]);
                    assert(c[s[0] as int] == s);
                    assert(s[0] != x);
                } else {
                    assert(s2[0] == s[1]);
                    assert(c[s[1] as int] == s);
                    assert(s[1] != x);
                }
                assert(par(n2, s2[0] as int) == par(n, s2[0] as int));
            }
            if let Some(q) = par(n, m) {
                assert(node_ok(n, c, p, d, q as int));
                assert(parent_ok(n2, c2, m));
            }
}

proof fn lemma_detach_other(n: Seq<TreeNode>, c: Seq<Seq<usize>>, p: Seq<nat>, d: Seq<nat>, x: int, m: int)
    requires
        wf_parts(n, c, p, d),
        0 <= x < n.len(),
        0 <= m < n.len(),
        c[m] != c[x],
    ensures
        node_ok(detach_nodes(n, x), detach_chains(c, p, x), detach_poss(c, p, x), d, m),
{
    let n2 = detach_nodes(n, x);
    let c2 = detach_chains(c, p, x);
    let p2 = detach_poss(c, p, x);
    let s = c[x];
    let i = p[x] as int;
    let len = n.len();
    lemma_neighbours(n, c, p, d, x);
    assert(node_ok(n, c, p, d, x));
    let s2 = s.remove(i);
    assert(node_ok(n, c, p, d, m));
    assert(n2[m] == detach_node_at(n, x, m));
            let sm = c[m];
            assert(c2[m] == sm);
            assert(p2[m] == p[m]);
            assert(member_ok(len, c, p, m, 0));
            assert(c[sm[0] as int] == sm);
            assert(sm[0] != x);
            if prv(n, m) is Some {
                assert(member_ok(len, c, p, m, p[m] - 1));
            }
            if nxt(n, m) is Some {
                assert(member_ok(len, c, p, m, p[m] as int + 1));
            }
            assert(prv(n, x) != Some(m as usize));
            assert(nxt(n, x) != Some(m as usize));
            if let Some(r) = par(n, m) {
                assert(par(n, x) != Some(r));
                assert(node_ok(n, c, p, d, r as int));
                if r == x {
                    assert(fst(n2, x) == fst(n, x));
                }
                assert(parent_ok(n2, c2, m));
            }
            if par(n, x) == Some(m as usize) {
                if fst(n, m) == Some(x as usize) {
                    assert(i == 0);
                    if let Some(b) = nxt(n, x) {
                        assert(b == s[1]);
                        assert(c[b as int] == s);
                        assert(p2[b as int] == 0);
                        assert(par(n, s[1] as int) == par(n, x));
                        assert(n2[b as int] == detach_node_at(n, x, b as int));
                        assert(lst(n, m) != Some(x as usize));
                        assert(s.last() != x);
                        assert(par(n, s.last() as int) == par(n, x));
                        assert(n2[s.last() as int] == detach_node_at(n, x, s.last() as int));
                    } else {
                        assert(s.len() == 1);
                        assert(lst(n, m) == Some(x as usize));
                    }
                } else {
                    assert(fst(n, m) == Some(s[0]));
                    assert(i > 0);
                    assert(s[0] != x);
                    assert(c[s[0] as int] == s);
                    assert(p2[s[0] as int] == 0);
                    assert(par(n, s[0] as int) == par(n, x));
                    assert(n2[s[0] as int] == detach_node_at(n, x, s[0] as int));
                }
                if lst(n, m) == Some(x as usize) {
                    if let Some(a) = prv(n, x) {
                        assert(a == s[i - 1]);
                        assert(par(n, s[i - 1] as int) == par(n, x));
                        assert(n2[a as int] == detach_node_at(n, x, a as int));
                    }
                } else {
                    assert(lst(n, m) == Some(s.last()));
                    assert(s.last() != x);
                    assert(par(n, s.last() as int) == par(n, x));
                    assert(n2[s.last() as int] == detach_node_at(n, x, s.last() as int));
                }
                assert(child_ok(n2, p2, m));
            } else {
                if let Some(f) = fst(n, m) {
                    assert(node_ok(n, c, p, d, f as int));
                    assert(f != x);
                    assert(n2[f as int] == detach_node_at(n, x, f as int));
                    if c[f as int] == s {
                        assert(par(n, f as int) == par(n, x));
                    }
                }
                if let Some(l) = lst(n, m) {
                    assert(node_ok(n, c, p, d, l as int));
                    assert(l != x);
                    assert(n2[l as int] == detach_node_at(n, x, l as int));
                }
                assert(child_ok(n2, p2, m));
            }
            assert(chain_ok(n2, c2, p2, m));
}

/// Detaching a node keeps the invariant.
pub proof fn lemma_detach_wf(n: Seq<TreeNode>, c: Seq<Seq<usize>>, p: Seq<nat>, d: Seq<nat>, x: int)
    requires
        wf_parts(n, c, p, d),
        0 <= x < n.len(),
    ensures
        wf_parts(detach_nodes(n, x), detach_chains(c, p, x), detach_poss(c, p, x), d),
{
    let n2 = detach_nodes(n, x);
    let c2 = detach_chains(c, p, x);
    let p2 = detach_poss(c, p, x);
    let s = c[x];
    let i = p[x] as int;
    let len = n.len();
    lemma_neighbours(n, c, p, d, x);
    assert(node_ok(n, c, p, d, x));
    let s2 = s.remove(i);
    assert forall|m: int| 0 <= m < len implies #[trigger] node_ok(n2, c2, p2, d, m) by {
        lemma_detach_node(n, c, p, d, x, m);
    }
    assert forall|m: int, j: int| 0 <= m < len implies #[trigger] member_ok(len, c2, p2, m, j) by {
        assert(member_ok(len, c, p, m, j));
        if m == x {
        } else if c[m] == s {
            assert(c2[m] == s2);
            if 0 <= j < s2.len() {
                if j < i {
                    assert(s2[j] == s[j]);
                    assert(c[s[j] as int] == s && p[s[j] as int] == j);
                    assert(s[j] != x);
                    assert(c2[s[j] as int] == s2);
                } else {
                    assert(s2[j] == s[j + 1]);
                    assert(c[s[j + 1] as int] == s && p[s[j + 1] as int] == j + 1);
                    assert(s[j + 1] != x);
                    assert(c2[s[j + 1] as int] == s2);
                }
            }
        } else {
            if 0 <= j < c[m].len() {
                let y = c[m][j];
                assert(c[y as int] == c[m]);
                assert(y != x);
            }
        }
    }
}

} // verus!

verus! {

/// What detaching `x` does to parents, children, chains and subtrees.
pub proof fn lemma_detach_model(n: Seq<TreeNode>, c: Seq<Seq<usize>>, p: Seq<nat>, d: Seq<nat>, x: int)
    requires
        wf_parts(n, c, p, d),
        0 <= x < n.len(),
    ensures
        ({
            let n2 = detach_nodes(n, x);
            let c2 = detach_chains(c, p, x);
            &&& n2.len() == n.len()
            &&& forall|m: int| 0 <= m < n.len() ==> #[trigger] n2[m].data == n[m].data
            &&& par(n2, x).is_none()
            &&& c2[x] == seq![x as usize]
            &&& forall|m: int| 0 <= m < n.len() && m != x ==> #[trigger] par(n2, m) == par(n, m)
            &&& forall|m: int| 0 <= m < n.len() && m != x && c[m] == c[x] ==> #[trigger] c2[m] == c[x].remove(p[x] as int)
            &&& forall|m: int| 0 <= m < n.len() && c[m] != c[x] ==> #[trigger] c2[m] == c[m]
            &&& forall|q: int| 0 <= q < n.len() ==> #[trigger] children_of(n2, c2, q) == (if par(n, x) == Some(q as usize) {
                children_of(n, c, q).remove(p[x] as int)
            } else {
                children_of(n, c, q)
            })
            &&& forall|m: int| 0 <= m < n.len() ==> #[trigger] is_desc(n2, d, m, x) == is_desc(n, d, m, x)
        }),
{
    let n2 = detach_nodes(n, x);
    let c2 = detach_chains(c, p, x);
    let p2 = detach_poss(c, p, x);
    lemma_detach_wf(n, c, p, d, x);
    lemma_neighbours(n, c, p, d, x);
    let s = c[x];
    let i = p[x] as int;
    assert(node_ok(n, c, p, d, x));
    assert forall|m: int| 0 <= m < n.len() implies #[trigger] n2[m].data == n[m].data by {
        assert(n2[m] == detach_node_at(n, x, m));
    }
    assert forall|m: int| 0 <= m < n.len() && m != x implies #[trigger] par(n2, m) == par(n, m) by {
        assert(n2[m] == detach_node_at(n, x, m));
    }
    assert forall|q: int| 0 <= q < n.len() implies #[trigger] children_of(n2, c2, q) == (if par(n, x) == Some(q as usize) {
        children_of(n, c, q).remove(p[x] as int)
    } else {
        children_of(n, c, q)
    }) by {
        assert(node_ok(n, c, p, d, q));
        assert(node_ok(n2, c2, p2, d, q));
        assert(n2[q] == detach_node_at(n, x, q));
        if par(n, x) == Some(q as usize) {
            assert(q != x);
            assert(fst(n, q) == Some(s[0]));
            assert(c[s[0] as int] == s);
            if let Some(f2) = fst(n2, q) {
                assert(node_ok(n2, c2, p2, d, f2 as int));
                assert(par(n2, f2 as int) == Some(q as usize));
                assert(f2 != x);
                assert(par(n, f2 as int) == Some(q as usize));
                assert(c[f2 as int] == s);
            } else {
                assert(s.len() == 1);
            }
        } else {
            if let Some(f) = fst(n, q) {
                assert(node_ok(n, c, p, d, f as int));
                assert(f != x);
                if c[f as int] == s {
                    assert(par(n, f as int) == par(n, x));
                }
            }
        }
    }
    assert forall|m: int| 0 <= m < n.len() implies #[trigger] is_desc(n2, d, m, x) == is_desc(n, d, m, x) by {
        lemma_detach_keeps_subtree(n, c, p, d, x, m);
    }
}

proof fn lemma_detach_keeps_subtree(n: Seq<TreeNode>, c: Seq<Seq<usize>>, p: Seq<nat>, d: Seq<nat>, x: int, m: int)
    requires
        wf_parts(n, c, p, d),
        0 <= x < n.len(),
        0 <= m < n.len(),
    ensures
        is_desc(detach_nodes(n, x), d, m, x) == is_desc(n, d, m, x),
    decreases d[m],
{
    let n2 = detach_nodes(n, x);
    assert(n2[m] == detach_node_at(n, x, m));
    assert(node_ok(n, c, p, d, m));
    if m != x {
        if let Some(q) = par(n, m) {
            lemma_detach_keeps_subtree(n, c, p, d, x, q as int);
        }
    }
}

/// The children of `q` in an arena with a ghost model.
pub open spec fn children_of(n: Seq<TreeNode>, c: Seq<Seq<usize>>, q: int) -> Seq<usize> {
    match fst(n, q) {
        Some(f) => c[f as int],
        None => Seq::empty(),
    }
}

} // verus!
