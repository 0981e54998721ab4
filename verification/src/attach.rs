//! Putting a detached node into a chain of siblings: the new links and the new model.
use vstd::prelude::*;
use crate::node::{NodeId, TreeNode};
use crate::tree::{par, prv, nxt, fst, lst, links_ok, chain_ok, member_ok, parent_ok, child_ok, depth_ok, node_ok, wf_parts, is_desc};
use crate::detach::{lemma_neighbours, children_of};

verus! {

pub open spec fn to_id(o: Option<usize>) -> Option<NodeId> {
    match o {
        Some(v) => Some(NodeId { value: v }),
        None => None,
    }
}

/// The node before index `k` of chain `s`.
pub open spec fn before(s: Seq<usize>, k: int) -> Option<usize> {
    if k > 0 { Some(s[k - 1]) } else { None }
}

/// The node at index `k` of chain `s`, if any.
pub open spec fn at(s: Seq<usize>, k: int) -> Option<usize> {
    if k < s.len() { Some(s[k]) } else { None }
}

/// Slot `m` once detached node `x` is put at index `k` of chain `s`, whose parent is `o`.
pub open spec fn attach_node_at(n: Seq<TreeNode>, x: int, o: Option<usize>, s: Seq<usize>, k: int, m: int) -> TreeNode {
    let xid = Some(NodeId { value: x as usize });
    let nm = n[m];
    if m == x {
        TreeNode { parent: to_id(o), prev_sibling: to_id(before(s, k)), next_sibling: to_id(at(s, k)), ..nm }
    } else {
        TreeNode {
            next_sibling: if before(s, k) == Some(m as usize) { xid } else { nm.next_sibling },
            prev_sibling: if at(s, k) == Some(m as usize) { xid } else { nm.prev_sibling },
            first_child: if o == Some(m as usize) && k == 0 { xid } else { nm.first_child },
            last_child: if o == Some(m as usize) && k == s.len() { xid } else { nm.last_child },
            ..nm
        }
    }
}

pub open spec fn attach_nodes(n: Seq<TreeNode>, x: int, o: Option<usize>, s: Seq<usize>, k: int) -> Seq<TreeNode> {
    Seq::new(n.len(), |m: int| attach_node_at(n, x, o, s, k, m))
}

pub open spec fn attach_chains(c: Seq<Seq<usize>>, x: int, s: Seq<usize>, k: int) -> Seq<Seq<usize>> {
    Seq::new(c.len(), |m: int| if m == x || c[m] == s { s.insert(k, x as usize) } else { c[m] })
}

pub open spec fn attach_poss(c: Seq<Seq<usize>>, p: Seq<nat>, x: int, s: Seq<usize>, k: int) -> Seq<nat> {
    Seq::new(p.len(), |m: int| if m == x { k as nat } else if c[m] == s && p[m] >= k { p[m] + 1 } else { p[m] })
}

/// Depths once the subtree of `x` hangs below `o`.
pub open spec fn attach_depths(n: Seq<TreeNode>, d: Seq<nat>, x: int, o: Option<usize>) -> Seq<nat> {
    Seq::new(d.len(), |m: int| match o {
        Some(q) => if is_desc(n, d, m, x) { (d[m] + d[q as int] + 1 - d[x]) as nat } else { d[m] },
        None => d[m],
    })
}

/// The conditions under which detached `x` can go to index `k` of chain `s` below `o`.
pub open spec fn attach_ok(n: Seq<TreeNode>, c: Seq<Seq<usize>>, d: Seq<nat>, x: int, o: Option<usize>, s: Seq<usize>, k: int) -> bool {
    &&& 0 <= x < n.len()
    &&& par(n, x).is_none()
    &&& prv(n, x).is_none()
    &&& nxt(n, x).is_none()
    &&& 0 <= k <= s.len()
    &&& (s.len() > 0 ==> 0 <= s[0] < n.len() && c[s[0] as int] == s && par(n, s[0] as int) == o && s[0] != x)
    &&& (s.len() == 0 ==> o is Some && fst(n, o.unwrap() as int).is_none())
    &&& (o matches Some(q) ==> 0 <= q < n.len() && !is_desc(n, d, q as int, x))
}

/// A node below `a` is at least as deep as `a`.
pub proof fn lemma_desc_depth(n: Seq<TreeNode>, c: Seq<Seq<usize>>, p: Seq<nat>, d: Seq<nat>, m: int, a: int)
    requires
        wf_parts(n, c, p, d),
        0 <= m < n.len(),
        is_desc(n, d, m, a),
    ensures
        d[m] >= d[a],
        m != a ==> d[m] > d[a],
    decreases d[m],
{
    assert(node_ok(n, c, p, d, m));
    if m != a {
        let q = par(n, m).unwrap();
        lemma_desc_depth(n, c, p, d, q as int, a);
    }
}

proof fn lemma_attach_setup(n: Seq<TreeNode>, c: Seq<Seq<usize>>, p: Seq<nat>, d: Seq<nat>, x: int, o: Option<usize>, s: Seq<usize>, k: int)
    requires
        wf_parts(n, c, p, d),
        attach_ok(n, c, d, x, o, s, k),
    ensures
        x <= usize::MAX,
        c[x] == seq![x as usize],
        p[x] == 0,
        forall|j: int| #![trigger s[j]] 0 <= j < s.len() ==> 0 <= s[j] < n.len() && c[s[j] as int] == s && p[s[j] as int] == j && s[j] != x && par(n, s[j] as int) == o,
        forall|m: int| 0 <= m < n.len() && #[trigger] c[m] == s ==> s[p[m] as int] == m && p[m] < s.len() && m != x,
        forall|m: int| 0 <= m < n.len() && c[m] == s ==> #[trigger] par(n, m) == o,
        o matches Some(q) ==> forall|m: int| 0 <= m < n.len() && #[trigger] par(n, m) == Some(q) ==> c[m] == s,
        o matches Some(q) ==> q != x && !(#[trigger] c[q as int] == s),
        o matches Some(q) ==> fst(n, q as int) == (if s.len() > 0 { Some(s[0]) } else { None }) && lst(n, q as int) == (if s.len() > 0 { Some(s.last()) } else { None }),
{
    assert(node_ok(n, c, p, d, x));
    assert(member_ok(n.len(), c, p, x, 0));
    if s.len() > 0 {
        let t = s[0] as int;
        lemma_neighbours(n, c, p, d, t);
        assert(node_ok(n, c, p, d, t));
        assert forall|j: int| #![trigger s[j]] 0 <= j < s.len() implies 0 <= s[j] < n.len() && c[s[j] as int] == s && p[s[j] as int] == j && s[j] != x && par(n, s[j] as int) == o by {
            assert(c[t][j] == s[j]);
            if s[j] == x {
                assert(c[x] == s);
            }
        }
        if let Some(q) = o {
            assert(node_ok(n, c, p, d, q as int));
            assert(q != x);
        }
    } else {
        let q = o.unwrap();
        assert(node_ok(n, c, p, d, q as int));
        assert forall|m: int| 0 <= m < n.len() && #[trigger] par(n, m) == Some(q) implies c[m] == s by {
            assert(node_ok(n, c, p, d, m));
        }
        assert(q != x);
        assert(node_ok(n, c, p, d, q as int));
        assert(member_ok(n.len(), c, p, q as int, 0));
    }
    assert forall|m: int| 0 <= m < n.len() && #[trigger] c[m] == s implies s[p[m] as int] == m && p[m] < s.len() && m != x by {
        assert(node_ok(n, c, p, d, m));
        if m == x {
            assert(s.len() == 1);
        }
    }
}

} // verus!

verus! {

proof fn lemma_attach_x(n: Seq<TreeNode>, c: Seq<Seq<usize>>, p: Seq<nat>, d: Seq<nat>, x: int, o: Option<usize>, s: Seq<usize>, k: int)
    requires
        wf_parts(n, c, p, d),
        attach_ok(n, c, d, x, o, s, k),
    ensures
        node_ok(attach_nodes(n, x, o, s, k), attach_chains(c, x, s, k), attach_poss(c, p, x, s, k), attach_depths(n, d, x, o), x),
{
    let n2 = attach_nodes(n, x, o, s, k);
    let c2 = attach_chains(c, x, s, k);
    let p2 = attach_poss(c, p, x, s, k);
    let d2 = attach_depths(n, d, x, o);
    let s2 = s.insert(k, x as usize);
    lemma_attach_setup(n, c, p, d, x, o, s, k);
    assert(node_ok(n, c, p, d, x));
    assert(n2[x] == attach_node_at(n, x, o, s, k, x));
    assert(c2[x] == s2);
    assert(p2[x] == k);
    assert(s2[k] == x);
    if k > 0 {
        assert(s2[k - 1] == s[k - 1]);
    }
    if k < s.len() {
        assert(s2[k + 1] == s[k]);
    }
    if k > 0 {
        assert(s2[0] == s[0]);
        assert(n2[s[0] as int] == attach_node_at(n, x, o, s, k, s[0] as int));
    }
    assert(chain_ok(n2, c2, p2, x));
    if let Some(q) = o {
        assert(n2[q as int] == attach_node_at(n, x, o, s, k, q as int));
        if k == s.len() {
            assert(s2.last() == x);
        } else {
            assert(s2.last() == s.last());
        }
        assert(parent_ok(n2, c2, x));
        assert(is_desc(n, d, x, x));
        assert(d2[x] == d[q as int] + 1);
        assert(d2[q as int] == d[q as int]);
    }
    if let Some(f) = fst(n, x) {
        assert(node_ok(n, c, p, d, f as int));
        assert(n2[f as int] == attach_node_at(n, x, o, s, k, f as int));
        assert(c[f as int] != s);
    }
    if let Some(l) = lst(n, x) {
        assert(node_ok(n, c, p, d, l as int));
        assert(n2[l as int] == attach_node_at(n, x, o, s, k, l as int));
    }
}

proof fn lemma_attach_member(n: Seq<TreeNode>, c: Seq<Seq<usize>>, p: Seq<nat>, d: Seq<nat>, x: int, o: Option<usize>, s: Seq<usize>, k: int, m: int)
    requires
        wf_parts(n, c, p, d),
        attach_ok(n, c, d, x, o, s, k),
        0 <= m < n.len(),
        c[m] == s,
    ensures
        node_ok(attach_nodes(n, x, o, s, k), attach_chains(c, x, s, k), attach_poss(c, p, x, s, k), attach_depths(n, d, x, o), m),
{
    let n2 = attach_nodes(n, x, o, s, k);
    let c2 = attach_chains(c, x, s, k);
    let p2 = attach_poss(c, p, x, s, k);
    let d2 = attach_depths(n, d, x, o);
    let s2 = s.insert(k, x as usize);
    lemma_attach_setup(n, c, p, d, x, o, s, k);
    assert(node_ok(n, c, p, d, m));
    assert(n2[m] == attach_node_at(n, x, o, s, k, m));
    let j = p[m] as int;
    assert(s[j] == m);
    assert(m != x);
    assert(c2[m] == s2);
    if j >= k {
        assert(p2[m] == j + 1);
        assert(s2[j + 1] == m);
    } else {
        assert(p2[m] == j);
        assert(s2[j] == m);
    }
    assert((before(s, k) == Some(m as usize)) == (j == k - 1));
    assert((at(s, k) == Some(m as usize)) == (j == k));
    if j > 0 {
        assert(s[j - 1] < n.len());
    }
    if j + 1 < s.len() {
        assert(s[j + 1] < n.len());
    }
    let j2 = p2[m] as int;
    if j2 > 0 {
        if j < k {
            assert(s2[j2 - 1] == s[j - 1]);
        } else if j == k {
            assert(s2[j2 - 1] == x);
        } else {
            assert(s2[j2 - 1] == s[j - 1]);
        }
    }
    if j2 + 1 < s2.len() {
        if j + 1 < k {
            assert(s2[j2 + 1] == s[j + 1]);
        } else if j + 1 == k {
            assert(s2[j2 + 1] == x);
        } else {
            assert(s2[j2 + 1] == s[j + 1]);
        }
    }
    if k == 0 {
        assert(s2[0] == x);
        assert(n2[x] == attach_node_at(n, x, o, s, k, x));
    } else {
        assert(s2[0] == s[0]);
        assert(n2[s[0] as int] == attach_node_at(n, x, o, s, k, s[0] as int));
    }
    assert(chain_ok(n2, c2, p2, m));
    if let Some(q) = o {
        assert(n2[q as int] == attach_node_at(n, x, o, s, k, q as int));
        if k == s.len() {
            assert(s2.last() == x);
        } else {
            assert(s2.last() == s.last());
        }
        assert(parent_ok(n2, c2, m));
        assert(!is_desc(n, d, m, x));
        assert(d2[m] == d[m]);
        assert(d2[q as int] == d[q as int]);
    }
    if let Some(f) = fst(n, m) {
        assert(node_ok(n, c, p, d, f as int));
        assert(n2[f as int] == attach_node_at(n, x, o, s, k, f as int));
        assert(c[f as int] != s);
        assert(f != x);
    }
    if let Some(l) = lst(n, m) {
        assert(node_ok(n, c, p, d, l as int));
        assert(n2[l as int] == attach_node_at(n, x, o, s, k, l as int));
        assert(l != x);
    }
}

proof fn lemma_attach_other(n: Seq<TreeNode>, c: Seq<Seq<usize>>, p: Seq<nat>, d: Seq<nat>, x: int, o: Option<usize>, s: Seq<usize>, k: int, m: int)
    requires
        wf_parts(n, c, p, d),
        attach_ok(n, c, d, x, o, s, k),
        0 <= m < n.len(),
        m != x,
        c[m] != s,
    ensures
        node_ok(attach_nodes(n, x, o, s, k), attach_chains(c, x, s, k), attach_poss(c, p, x, s, k), attach_depths(n, d, x, o), m),
{
    let n2 = attach_nodes(n, x, o, s, k);
    let c2 = attach_chains(c, x, s, k);
    let p2 = attach_poss(c, p, x, s, k);
    let d2 = attach_depths(n, d, x, o);
    let s2 = s.insert(k, x as usize);
    lemma_attach_setup(n, c, p, d, x, o, s, k);
    assert(node_ok(n, c, p, d, m));
    assert(n2[m] == attach_node_at(n, x, o, s, k, m));
    let sm = c[m];
    assert(c2[m] == sm);
    assert(p2[m] == p[m]);
    assert(member_ok(n.len(), c, p, m, 0));
    assert(c[sm[0] as int] == sm);
    assert(sm[0] != x) by {
        if sm[0] == x {
            assert(c[x] == sm);
            assert(sm.len() == 1);
            assert(m == x);
        }
    }
    assert(n2[sm[0] as int] == attach_node_at(n, x, o, s, k, sm[0] as int));
    assert(before(s, k) != Some(m as usize));
    assert(at(s, k) != Some(m as usize));
    if prv(n, m) is Some {
        assert(member_ok(n.len(), c, p, m, p[m] - 1));
    }
    if nxt(n, m) is Some {
        assert(member_ok(n.len(), c, p, m, p[m] as int + 1));
    }
    assert(chain_ok(n2, c2, p2, m));
    if let Some(r) = par(n, m) {
        assert(o != Some(r));
        assert(node_ok(n, c, p, d, r as int));
        assert(n2[r as int] == attach_node_at(n, x, o, s, k, r as int));
        assert(parent_ok(n2, c2, m));
        if let Some(q) = o {
            if is_desc(n, d, m, x) {
                assert(is_desc(n, d, r as int, x));
                lemma_desc_depth(n, c, p, d, m, x);
                lemma_desc_depth(n, c, p, d, r as int, x);
            } else {
                assert(!is_desc(n, d, r as int, x));
            }
        }
        assert(depth_ok(n2, d2, m));
    }
    if o == Some(m as usize) {
        if k == 0 {
            assert(n2[x] == attach_node_at(n, x, o, s, k, x));
            assert(p2[x] == 0);
        } else {
            assert(fst(n, m) == Some(s[0]));
            assert(n2[s[0] as int] == attach_node_at(n, x, o, s, k, s[0] as int));
            assert(p2[s[0] as int] == 0);
        }
        if k == s.len() {
            assert(n2[x] == attach_node_at(n, x, o, s, k, x));
        } else {
            assert(n2[s.last() as int] == attach_node_at(n, x, o, s, k, s.last() as int));
            assert(s.last() == s[s.len() - 1]);
        }
        assert(child_ok(n2, p2, m));
    } else {
        if let Some(f) = fst(n, m) {
            assert(node_ok(n, c, p, d, f as int));
            assert(n2[f as int] == attach_node_at(n, x, o, s, k, f as int));
            assert(f != x);
            if c[f as int] == s {
                assert(par(n, f as int) == o);
            }
        }
        if let Some(l) = lst(n, m) {
            assert(node_ok(n, c, p, d, l as int));
            assert(n2[l as int] == attach_node_at(n, x, o, s, k, l as int));
            assert(l != x);
        }
        assert(child_ok(n2, p2, m));
    }
}

/// Putting detached `x` at index `k` of chain `s` below `o` keeps the invariant.
pub proof fn lemma_attach_wf(n: Seq<TreeNode>, c: Seq<Seq<usize>>, p: Seq<nat>, d: Seq<nat>, x: int, o: Option<usize>, s: Seq<usize>, k: int)
    requires
        wf_parts(n, c, p, d),
        attach_ok(n, c, d, x, o, s, k),
    ensures
        wf_parts(attach_nodes(n, x, o, s, k), attach_chains(c, x, s, k), attach_poss(c, p, x, s, k), attach_depths(n, d, x, o)),
{
    let n2 = attach_nodes(n, x, o, s, k);
    let c2 = attach_chains(c, x, s, k);
    let p2 = attach_poss(c, p, x, s, k);
    let d2 = attach_depths(n, d, x, o);
    let s2 = s.insert(k, x as usize);
    let len = n.len();
    lemma_attach_setup(n, c, p, d, x, o, s, k);
    assert forall|m: int| 0 <= m < len implies #[trigger] node_ok(n2, c2, p2, d2, m) by {
        if m == x {
            lemma_attach_x(n, c, p, d, x, o, s, k);
        } else if c[m] == s {
            lemma_attach_member(n, c, p, d, x, o, s, k, m);
        } else {
            lemma_attach_other(n, c, p, d, x, o, s, k, m);
        }
    }
    assert forall|m: int, j: int| 0 <= m < len implies #[trigger] member_ok(len, c2, p2, m, j) by {
        assert(member_ok(len, c, p, m, j));
        if m == x || c[m] == s {
            assert(c2[m] == s2);
            if 0 <= j < s2.len() {
                if j < k {
                    assert(s2[j] == s[j]);
                    assert(c[s[j] as int] == s && p[s[j] as int] == j && s[j] != x);
                } else if j == k {
                    assert(s2[j] == x);
                } else {
                    assert(s2[j] == s[j - 1]);
                    assert(c[s[j - 1] as int] == s && p[s[j - 1] as int] == j - 1 && s[j - 1] != x);
                }
            }
        } else {
            if 0 <= j < c[m].len() {
                let y = c[m][j];
                assert(c[y as int] == c[m]);
                if y == x {
                    assert(c[x] == c[m]);
                    assert(c[m].len() == 1);
                    assert(node_ok(n, c, p, d, m));
                    assert(false);
                }
                assert(c2[y as int] == c[m]);
            }
        }
    }
}

} // verus!

verus! {

/// What attaching `x` does to parents, children, chains and the subtree of `x`.
pub proof fn lemma_attach_model(n: Seq<TreeNode>, c: Seq<Seq<usize>>, p: Seq<nat>, d: Seq<nat>, x: int, o: Option<usize>, s: Seq<usize>, k: int)
    requires
        wf_parts(n, c, p, d),
        attach_ok(n, c, d, x, o, s, k),
    ensures
        ({
            let n2 = attach_nodes(n, x, o, s, k);
            let c2 = attach_chains(c, x, s, k);
            let d2 = attach_depths(n, d, x, o);
            &&& n2.len() == n.len()
            &&& forall|m: int| 0 <= m < n.len() ==> #[trigger] n2[m].data == n[m].data
            &&& par(n2, x) == o
            &&& forall|m: int| 0 <= m < n.len() && m != x ==> #[trigger] par(n2, m) == par(n, m)
            &&& c2[x] == s.insert(k, x as usize)
            &&& forall|m: int| 0 <= m < n.len() && c[m] == s ==> #[trigger] c2[m] == s.insert(k, x as usize)
            &&& forall|m: int| 0 <= m < n.len() && m != x && c[m] != s ==> #[trigger] c2[m] == c[m]
            &&& forall|q: int| 0 <= q < n.len() ==> #[trigger] children_of(n2, c2, q) == (if o == Some(q as usize) {
                s.insert(k, x as usize)
            } else {
                children_of(n, c, q)
            })
            &&& forall|m: int| 0 <= m < n.len() ==> #[trigger] is_desc(n2, d2, m, x) == is_desc(n, d, m, x)
        }),
{
    let n2 = attach_nodes(n, x, o, s, k);
    let c2 = attach_chains(c, x, s, k);
    let p2 = attach_poss(c, p, x, s, k);
    let d2 = attach_depths(n, d, x, o);
    lemma_attach_wf(n, c, p, d, x, o, s, k);
    lemma_attach_setup(n, c, p, d, x, o, s, k);
    assert forall|m: int| 0 <= m < n.len() implies #[trigger] n2[m].data == n[m].data by {
        assert(n2[m] == attach_node_at(n, x, o, s, k, m));
    }
    assert forall|m: int| 0 <= m < n.len() && m != x implies #[trigger] par(n2, m) == par(n, m) by {
        assert(n2[m] == attach_node_at(n, x, o, s, k, m));
    }
    assert(n2[x] == attach_node_at(n, x, o, s, k, x));
    assert forall|q: int| 0 <= q < n.len() implies #[trigger] children_of(n2, c2, q) == (if o == Some(q as usize) {
        s.insert(k, x as usize)
    } else {
        children_of(n, c, q)
    }) by {
        assert(n2[q] == attach_node_at(n, x, o, s, k, q));
        assert(node_ok(n, c, p, d, q));
        if o == Some(q as usize) {
            if k == 0 {
                assert(c2[x] == s.insert(k, x as usize));
            } else {
                assert(c[s[0] as int] == s);
            }
        } else {
            if let Some(f) = fst(n, q) {
                assert(node_ok(n, c, p, d, f as int));
                assert(f != x);
                if c[f as int] == s {
                    assert(par(n, f as int) == o);
                }
            }
        }
    }
    assert forall|m: int| 0 <= m < n.len() implies #[trigger] is_desc(n2, d2, m, x) == is_desc(n, d, m, x) by {
        lemma_attach_keeps_subtree(n, c, p, d, x, o, s, k, m);
    }
}

proof fn lemma_attach_keeps_subtree(n: Seq<TreeNode>, c: Seq<Seq<usize>>, p: Seq<nat>, d: Seq<nat>, x: int, o: Option<usize>, s: Seq<usize>, k: int, m: int)
    requires
        wf_parts(n, c, p, d),
        attach_ok(n, c, d, x, o, s, k),
        0 <= m < n.len(),
    ensures
        is_desc(attach_nodes(n, x, o, s, k), attach_depths(n, d, x, o), m, x) == is_desc(n, d, m, x),
    decreases d[m],
{
    let n2 = attach_nodes(n, x, o, s, k);
    let d2 = attach_depths(n, d, x, o);
    lemma_attach_wf(n, c, p, d, x, o, s, k);
    assert(n2[m] == attach_node_at(n, x, o, s, k, m));
    assert(node_ok(n, c, p, d, m));
    assert(node_ok(n2, attach_chains(c, x, s, k), attach_poss(c, p, x, s, k), d2, m));
    if m != x {
        if let Some(q) = par(n, m) {
            lemma_attach_keeps_subtree(n, c, p, d, x, o, s, k, q as int);
        }
    }
}

} // verus!
