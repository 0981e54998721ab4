//! Moving all the children of a node to another parent, or detaching them together.
use vstd::prelude::*;
use crate::node::{NodeId, TreeNode};
use crate::tree::{par, prv, nxt, fst, lst, links_ok, chain_ok, member_ok, parent_ok, child_ok, depth_ok, node_ok, wf_parts, is_desc};
use crate::detach::{lemma_neighbours, children_of};
use crate::attach::{to_id, lemma_desc_depth};

verus! {

/// Slot `m` once the children of `x` have moved to `o` (or to no parent when `o` is `None`).
pub open spec fn reparent_node_at(n: Seq<TreeNode>, c: Seq<Seq<usize>>, x: int, o: Option<usize>, m: int) -> TreeNode {
    reparent_prefix_at(n, c, x, o, children_of(n, c, x).len() as int, m)
}

/// Slot `m` once the first `k` children of `x` have been given the parent `o`.
pub open spec fn reparent_prefix_at(n: Seq<TreeNode>, c: Seq<Seq<usize>>, x: int, o: Option<usize>, k: int, m: int) -> TreeNode {
    let s = children_of(n, c, x).take(k);
    let nm = n[m];
    let nm1 = if m == x { TreeNode { first_child: None, last_child: None, ..nm } } else { nm };
    let nm2 = if o == Some(m as usize) {
        TreeNode { first_child: n[x].first_child, last_child: n[x].last_child, ..nm1 }
    } else {
        nm1
    };
    if s.contains(m as usize) { TreeNode { parent: to_id(o), ..nm2 } } else { nm2 }
}

pub open spec fn reparent_nodes(n: Seq<TreeNode>, c: Seq<Seq<usize>>, x: int, o: Option<usize>) -> Seq<TreeNode> {
    Seq::new(n.len(), |m: int| reparent_node_at(n, c, x, o, m))
}

/// Depths once the subtrees of the children of `x` hang below `o`.
pub open spec fn reparent_depths(n: Seq<TreeNode>, d: Seq<nat>, x: int, o: Option<usize>) -> Seq<nat> {
    Seq::new(d.len(), |m: int| match o {
        Some(q) => if m != x && is_desc(n, d, m, x) { (d[m] + d[q as int] - d[x]) as nat } else { d[m] },
        None => d[m],
    })
}

/// The conditions under which the children of `x` can move to `o`.
pub open spec fn reparent_ok(n: Seq<TreeNode>, d: Seq<nat>, x: int, o: Option<usize>) -> bool {
    &&& 0 <= x < n.len()
    &&& (o matches Some(q) ==> {
        &&& 0 <= q < n.len()
        &&& q != x
        &&& fst(n, q as int).is_none()
        &&& !is_desc(n, d, q as int, x)
    })
}

proof fn lemma_reparent_node(n: Seq<TreeNode>, c: Seq<Seq<usize>>, p: Seq<nat>, d: Seq<nat>, x: int, o: Option<usize>, m: int)
    requires
        wf_parts(n, c, p, d),
        reparent_ok(n, d, x, o),
        0 <= m < n.len(),
    ensures
        node_ok(reparent_nodes(n, c, x, o), c, p, reparent_depths(n, d, x, o), m),
{
    let n2 = reparent_nodes(n, c, x, o);
    let d2 = reparent_depths(n, d, x, o);
    let s = children_of(n, c, x);
    assert(s.take(s.len() as int) =~= s);
    assert(node_ok(n, c, p, d, m));
    assert(node_ok(n, c, p, d, x));
    assert(n2[m] == reparent_node_at(n, c, x, o, m));
    let ghost in_s = |y: int| 0 <= y < n.len() && c[y] == s && fst(n, x).is_some();
    if let Some(f) = fst(n, x) {
        lemma_neighbours(n, c, p, d, f as int);
        assert(node_ok(n, c, p, d, f as int));
        assert(member_ok(n.len(), c, p, f as int, 0));
        assert(s == c[f as int]);
        assert(s[0] == f);
    }
    // membership in the children of x is being a child of x
    assert forall|y: int| 0 <= y < n.len() implies (#[trigger] s.contains(y as usize) == (par(n, y) == Some(x as usize))) by {
        assert(node_ok(n, c, p, d, y));
        if s.contains(y as usize) {
            let j = choose|j: int| 0 <= j < s.len() && s[j] == y as usize;
            let f = fst(n, x).unwrap();
            assert(member_ok(n.len(), c, p, f as int, j));
            assert(par(n, s[j] as int) == par(n, f as int));
        }
        if par(n, y) == Some(x as usize) {
            let f = fst(n, x).unwrap();
            assert(member_ok(n.len(), c, p, y, 0));
            assert(member_ok(n.len(), c, p, f as int, 0));
            assert(c[y] == s);
            assert(s[p[y] as int] == y);
        }
    }
    if let Some(q) = o {
        assert(node_ok(n, c, p, d, q as int));
        assert(n2[q as int] == reparent_node_at(n, c, x, o, q as int));
        assert(s.contains(q as usize) == (par(n, q as int) == Some(x as usize)));
        if par(n, q as int) == Some(x as usize) {
            assert(is_desc(n, d, x, x));
            assert(is_desc(n, d, q as int, x));
        }
        assert(!s.contains(q as usize));
    }
    assert(n2[x] == reparent_node_at(n, c, x, o, x));
    assert(!s.contains(x as usize));
    // links and chain
    let sm = c[m];
    assert(member_ok(n.len(), c, p, m, 0));
    assert(c[sm[0] as int] == sm);
    assert(n2[sm[0] as int] == reparent_node_at(n, c, x, o, sm[0] as int));
    assert(node_ok(n, c, p, d, sm[0] as int));
    assert(s.contains(m as usize) == s.contains(sm[0] as usize));
    assert(chain_ok(n2, c, p, m));
    // parent
    if let Some(r) = par(n2, m) {
        assert(node_ok(n, c, p, d, r as int));
        assert(n2[r as int] == reparent_node_at(n, c, x, o, r as int));
        if s.contains(m as usize) {
            assert(o == Some(r));
            let f = fst(n, x).unwrap();
            assert(c[m] == s);
            assert(!is_desc(n, d, r as int, x));
            assert(is_desc(n, d, m, x)) by {
                assert(par(n, m) == Some(x as usize));
                assert(d[x] < d[m]);
                assert(is_desc(n, d, x, x));
            }
        } else {
            assert(par(n, m) == Some(r));
            assert(r != x);
            if o == Some(r) {
                assert(false);
            }
            if let Some(q) = o {
                if m != x && is_desc(n, d, m, x) {
                    assert(is_desc(n, d, r as int, x));
                    lemma_desc_depth(n, c, p, d, m, x);
                    lemma_desc_depth(n, c, p, d, r as int, x);
                    assert(r != x);
                } else if m == x {
                    if is_desc(n, d, r as int, x) {
                        lemma_desc_depth(n, c, p, d, r as int, x);
                    }
                } else {
                    assert(!is_desc(n, d, r as int, x));
                }
            }
        }
        assert(parent_ok(n2, c, m));
        assert(depth_ok(n2, d2, m));
    }
    // children
    if m == x {
        assert(child_ok(n2, p, m));
    } else if o == Some(m as usize) {
        if let Some(f) = fst(n, x) {
            assert(s.contains(f as usize)) by {
                assert(s[0] == f);
            }
            assert(n2[f as int] == reparent_node_at(n, c, x, o, f as int));
            let l = lst(n, x).unwrap();
            assert(node_ok(n, c, p, d, l as int));
            assert(s.contains(l as usize));
            assert(n2[l as int] == reparent_node_at(n, c, x, o, l as int));
        }
        assert(child_ok(n2, p, m));
    } else {
        if let Some(f) = fst(n, m) {
            assert(node_ok(n, c, p, d, f as int));
            assert(n2[f as int] == reparent_node_at(n, c, x, o, f as int));
            assert(!s.contains(f as usize));
        }
        if let Some(l) = lst(n, m) {
            assert(node_ok(n, c, p, d, l as int));
            assert(n2[l as int] == reparent_node_at(n, c, x, o, l as int));
            assert(!s.contains(l as usize));
        }
        assert(child_ok(n2, p, m));
    }
}

/// Moving the children of `x` keeps the invariant.
pub proof fn lemma_reparent_wf(n: Seq<TreeNode>, c: Seq<Seq<usize>>, p: Seq<nat>, d: Seq<nat>, x: int, o: Option<usize>)
    requires
        wf_parts(n, c, p, d),
        reparent_ok(n, d, x, o),
    ensures
        wf_parts(reparent_nodes(n, c, x, o), c, p, reparent_depths(n, d, x, o)),
{
    let n2 = reparent_nodes(n, c, x, o);
    let d2 = reparent_depths(n, d, x, o);
    assert forall|m: int| 0 <= m < n.len() implies #[trigger] node_ok(n2, c, p, d2, m) by {
        lemma_reparent_node(n, c, p, d, x, o, m);
    }
    assert forall|m: int, j: int| 0 <= m < n.len() implies #[trigger] member_ok(n.len(), c, p, m, j) by {
        assert(member_ok(n.len(), c, p, m, j));
    }
}

} // verus!

verus! {

/// A node's children are exactly the nodes whose parent it is.
pub proof fn lemma_children_are_childs(n: Seq<TreeNode>, c: Seq<Seq<usize>>, p: Seq<nat>, d: Seq<nat>, x: int)
    requires
        wf_parts(n, c, p, d),
        0 <= x < n.len(),
    ensures
        forall|y: int| 0 <= y < n.len() ==> (#[trigger] children_of(n, c, x).contains(y as usize) == (par(n, y) == Some(x as usize))),
        forall|j: int| #![trigger children_of(n, c, x)[j]] 0 <= j < children_of(n, c, x).len() ==> {
            &&& children_of(n, c, x)[j] < n.len()
            &&& par(n, children_of(n, c, x)[j] as int) == Some(x as usize)
            &&& c[children_of(n, c, x)[j] as int] == children_of(n, c, x)
            &&& p[children_of(n, c, x)[j] as int] == j
        },
{
    let s = children_of(n, c, x);
    assert(node_ok(n, c, p, d, x));
    if let Some(f) = fst(n, x) {
        lemma_neighbours(n, c, p, d, f as int);
        assert(node_ok(n, c, p, d, f as int));
        assert(member_ok(n.len(), c, p, f as int, 0));
    }
    assert forall|y: int| 0 <= y < n.len() implies (#[trigger] s.contains(y as usize) == (par(n, y) == Some(x as usize))) by {
        assert(node_ok(n, c, p, d, y));
        if s.contains(y as usize) {
            let j = choose|j: int| 0 <= j < s.len() && s[j] == y as usize;
            let f = fst(n, x).unwrap();
            assert(member_ok(n.len(), c, p, f as int, j));
            assert(par(n, s[j] as int) == par(n, f as int));
        }
        if par(n, y) == Some(x as usize) {
            let f = fst(n, x).unwrap();
            assert(member_ok(n.len(), c, p, y, 0));
            assert(member_ok(n.len(), c, p, f as int, 0));
            assert(c[y] == s);
            assert(s[p[y] as int] == y);
        }
    }
    assert forall|j: int| #![trigger s[j]] 0 <= j < s.len() implies {
        &&& s[j] < n.len()
        &&& par(n, s[j] as int) == Some(x as usize)
        &&& c[s[j] as int] == s
        &&& p[s[j] as int] == j
    } by {
        let f = fst(n, x).unwrap();
        assert(member_ok(n.len(), c, p, f as int, j));
        assert(par(n, s[j] as int) == par(n, f as int));
    }
}

/// What moving the children of `x` to `o` does to parents and children.
pub proof fn lemma_reparent_model(n: Seq<TreeNode>, c: Seq<Seq<usize>>, p: Seq<nat>, d: Seq<nat>, x: int, o: Option<usize>)
    requires
        wf_parts(n, c, p, d),
        reparent_ok(n, d, x, o),
    ensures
        ({
            let n2 = reparent_nodes(n, c, x, o);
            &&& n2.len() == n.len()
            &&& forall|m: int| 0 <= m < n.len() ==> #[trigger] n2[m].data == n[m].data
            &&& forall|m: int| 0 <= m < n.len() ==> #[trigger] par(n2, m) == (if par(n, m) == Some(x as usize) { o } else { par(n, m) })
            &&& forall|r: int| 0 <= r < n.len() ==> #[trigger] children_of(n2, c, r) == (if r == x {
                Seq::<usize>::empty()
            } else if o == Some(r as usize) {
                children_of(n, c, x)
            } else {
                children_of(n, c, r)
            })
        }),
{
    let n2 = reparent_nodes(n, c, x, o);
    let s = children_of(n, c, x);
    assert(s.take(s.len() as int) =~= s);
    lemma_children_are_childs(n, c, p, d, x);
    assert forall|m: int| 0 <= m < n.len() implies #[trigger] n2[m].data == n[m].data by {
        assert(n2[m] == reparent_node_at(n, c, x, o, m));
    }
    assert forall|m: int| 0 <= m < n.len() implies #[trigger] par(n2, m) == (if par(n, m) == Some(x as usize) { o } else { par(n, m) }) by {
        assert(n2[m] == reparent_node_at(n, c, x, o, m));
        assert(s.contains(m as usize) == (par(n, m) == Some(x as usize)));
    }
    assert forall|r: int| 0 <= r < n.len() implies #[trigger] children_of(n2, c, r) == (if r == x {
        Seq::<usize>::empty()
    } else if o == Some(r as usize) {
        children_of(n, c, x)
    } else {
        children_of(n, c, r)
    }) by {
        assert(n2[r] == reparent_node_at(n, c, x, o, r));
        assert(node_ok(n, c, p, d, r));
        assert(node_ok(n, c, p, d, x));
    }
}

/// Moving the children of `x` to `x` itself changes nothing.
pub proof fn lemma_reparent_self(n: Seq<TreeNode>, c: Seq<Seq<usize>>, p: Seq<nat>, d: Seq<nat>, x: int)
    requires
        wf_parts(n, c, p, d),
        0 <= x < n.len(),
    ensures
        reparent_nodes(n, c, x, Some(x as usize)) == n,
{
    let n2 = reparent_nodes(n, c, x, Some(x as usize));
    let s = children_of(n, c, x);
    assert(node_ok(n, c, p, d, x));
    assert(s.take(s.len() as int) =~= s);
    lemma_children_are_childs(n, c, p, d, x);
    assert forall|m: int| 0 <= m < n.len() implies #[trigger] n2[m] == n[m] by {
        assert(n2[m] == reparent_node_at(n, c, x, Some(x as usize), m));
        assert(node_ok(n, c, p, d, m));
        if s.contains(m as usize) {
            assert(par(n, m) == Some(x as usize));
            assert(n[m].parent == Some(NodeId { value: x as usize }));
        }
    }
    assert(n2 =~= n);
}

} // verus!
