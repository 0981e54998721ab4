//! Copying a node and what lies below it, from another tree or from the same one.
use vstd::prelude::*;
use crate::node::{NodeId, NodeData, Element, QualName, TreeNode};
use crate::tree::{Tree, node_ok, member_ok, fst, lst, par, is_desc};
use crate::ops::TreeNodeOps;
use crate::query::ids_of;
use crate::node_api::{copy_attrs, element_at};
use crate::noderef::NodeRef;
use crate::sink::{Document, QuirksMode};
use crate::subtree::{preorder, forest, subtree};

verus! {

/// Two payloads hold the same: equal data, an element's attributes compared as sequences.
pub open spec fn same_payload(a: NodeData, b: NodeData) -> bool {
    match a {
        NodeData::Element(e1) => b matches NodeData::Element(e2) && {
            &&& e1.name == e2.name
            &&& e1.attrs@ == e2.attrs@
            &&& e1.template_contents == e2.template_contents
            &&& e1.mathml_annotation_xml_integration_point == e2.mathml_annotation_xml_integration_point
        },
        _ => a == b,
    }
}

/// Node `r` of `u` is a copy of node `x` of `s`, `fuel` levels deep: the same
/// payload, and children that are copies of the children of `x`, in order; every
/// node of the copy has an id in `lo..hi`.
pub open spec fn copy_of(u: Tree, r: int, s: Tree, x: int, fuel: nat, lo: int, hi: int) -> bool
    decreases fuel, 1int, 0int,
{
    &&& lo <= r < hi
    &&& same_payload(u.data(r), s.data(x))
    &&& if fuel > 0 {
        &&& u.children(r).len() == s.children(x).len()
        &&& copies(u, u.children(r), s, s.children(x), s.children(x).len() as int, (fuel - 1) as nat, lo, hi)
    } else {
        true
    }
}

/// The first `k` nodes of `rs` in `u` are copies of the first `k` nodes of `xs` in `s`.
pub open spec fn copies(u: Tree, rs: Seq<usize>, s: Tree, xs: Seq<usize>, k: int, fuel: nat, lo: int, hi: int) -> bool
    decreases fuel, 2int, k,
{
    if k <= 0 {
        true
    } else {
        copies(u, rs, s, xs, k - 1, fuel, lo, hi) && copy_of(u, rs[k - 1] as int, s, xs[k - 1] as int, fuel, lo, hi)
    }
}

/// What `copies` says, node by node.
proof fn lemma_copies(u: Tree, rs: Seq<usize>, s: Tree, xs: Seq<usize>, k: int, fuel: nat, lo: int, hi: int)
    ensures
        copies(u, rs, s, xs, k, fuel, lo, hi) <==> forall|j: int| 0 <= j < k ==>
            #[trigger] copy_of(u, rs[j] as int, s, xs[j] as int, fuel, lo, hi),
    decreases k,
{
    if k > 0 {
        lemma_copies(u, rs, s, xs, k - 1, fuel, lo, hi);
        if copies(u, rs, s, xs, k, fuel, lo, hi) {
            assert forall|j: int| 0 <= j < k implies #[trigger] copy_of(u, rs[j] as int, s, xs[j] as int, fuel, lo, hi) by {
                if j < k - 1 {
                    assert(copy_of(u, rs[j] as int, s, xs[j] as int, fuel, lo, hi));
                }
            }
        }
        if forall|j: int| 0 <= j < k ==> #[trigger] copy_of(u, rs[j] as int, s, xs[j] as int, fuel, lo, hi) {
            assert(copy_of(u, rs[k - 1] as int, s, xs[k - 1] as int, fuel, lo, hi));
        }
    }
}

/// A copy stays a copy where the tree keeps the data and the children of its nodes,
/// and within any wider range of ids.
pub proof fn lemma_copy_kept(u: Tree, v: Tree, r: int, s: Tree, x: int, fuel: nat, lo: int, hi: int, lo2: int, hi2: int)
    requires
        copy_of(u, r, s, x, fuel, lo, hi),
        lo2 <= lo,
        hi <= hi2,
        forall|i: int| lo <= i < hi ==> #[trigger] v.data(i) == u.data(i) && v.children(i) == u.children(i),
    ensures
        copy_of(v, r, s, x, fuel, lo2, hi2),
    decreases fuel,
{
    assert(v.data(r) == u.data(r));
    if fuel > 0 {
        let f = (fuel - 1) as nat;
        let n = s.children(x).len() as int;
        lemma_copies(u, u.children(r), s, s.children(x), n, f, lo, hi);
        lemma_copies(v, v.children(r), s, s.children(x), n, f, lo2, hi2);
        assert forall|j: int| 0 <= j < n implies
            #[trigger] copy_of(v, v.children(r)[j] as int, s, s.children(x)[j] as int, f, lo2, hi2) by {
            assert(copy_of(u, u.children(r)[j] as int, s, s.children(x)[j] as int, f, lo, hi));
            lemma_copy_kept(u, v, u.children(r)[j] as int, s, s.children(x)[j] as int, f, lo, hi, lo2, hi2);
        }
    }
}

/// A copy of a qualified name.
fn copy_name(n: &QualName) -> (r: QualName)
    ensures
        r == *n,
{
    let prefix = match &n.prefix {
        Some(p) => Some(p.clone()),
        None => None,
    };
    QualName { prefix, ns: n.ns.clone(), local: n.local.clone() }
}

/// A copy of the data of a node.
pub fn copy_data(d: &NodeData) -> (r: NodeData)
    ensures
        same_payload(r, *d),
{
    match d {
        NodeData::Document => NodeData::Document,
        NodeData::Fragment => NodeData::Fragment,
        NodeData::Doctype { name, public_id, system_id } => NodeData::Doctype {
            name: name.clone(),
            public_id: public_id.clone(),
            system_id: system_id.clone(),
        },
        NodeData::Text { contents } => NodeData::Text { contents: contents.clone() },
        NodeData::Comment { contents } => NodeData::Comment { contents: contents.clone() },
        NodeData::Element(e) => NodeData::Element(Element {
            name: copy_name(&e.name),
            attrs: copy_attrs(&e.attrs),
            template_contents: e.template_contents,
            mathml_annotation_xml_integration_point: e.mathml_annotation_xml_integration_point,
        }),
        NodeData::ProcessingInstruction { target, contents } => NodeData::ProcessingInstruction {
            target: target.clone(),
            contents: contents.clone(),
        },
    }
}

impl Tree {
    /// Copies node `x` of `src` and, `fuel` levels deep, what lies below it; returns the
    /// id of the copy, which gets no parent.
    fn copy_below(&mut self, src: &Tree, x: usize, fuel: usize) -> (r: usize)
        requires
            old(self).wf(),
            src.wf(),
            x < src.len(),
        ensures
            final(self).wf(),
            r == old(self).len(),
            final(self).len() == old(self).len() + preorder(*src, x, fuel as nat).len(),
            copy_of(*final(self), r as int, *src, x as int, fuel as nat, old(self).len() as int, final(self).len() as int),
            final(self).parent(r as int) is None,
            forall|i: int| 0 <= i < old(self).len() ==> {
                &&& #[trigger] final(self).data(i) == old(self).data(i)
                &&& final(self).children(i) == old(self).children(i)
                &&& final(self).parent(i) == old(self).parent(i)
            },
        decreases fuel,
    {
        let ghost t0 = *self;
        let lo = self.nodes.len();
        let r = self.create_node(copy_data(&src.nodes[x].data)).value;
        if fuel == 0 {
            return r;
        }
        let kids = TreeNodeOps::child_ids_of(src, &NodeId::new(x));
        let ghost cs = ids_of(kids@);
        proof {
            crate::normalize::lemma_kids(*src, x as int);
        }
        let mut k: usize = 0;
        while k < kids.len()
            invariant
                src.wf(),
                x < src.len(),
                cs == ids_of(kids@),
                cs == src.children(x as int),
                forall|j: int| 0 <= j < cs.len() ==> 0 <= #[trigger] cs[j] < src.len(),
                fuel > 0,
                self.wf(),
                lo == t0.len(),
                r == lo,
                self.len() == lo + 1 + forest(*src, cs, k as int, (fuel - 1) as nat).len(),
                k <= cs.len(),
                self.parent(r as int) is None,
                same_payload(self.data(r as int), src.data(x as int)),
                self.children(r as int).len() == k,
                forall|j: int| 0 <= j < k ==> #[trigger] copy_of(*self, self.children(r as int)[j] as int, *src, cs[j] as int,
                    (fuel - 1) as nat, r + 1, self.len() as int),
                forall|i: int| 0 <= i < lo ==> {
                    &&& #[trigger] self.data(i) == t0.data(i)
                    &&& self.children(i) == t0.children(i)
                    &&& self.parent(i) == t0.parent(i)
                },
            decreases kids.len() - k,
        {
            let c = kids[k];
            proof {
                assert(cs[k as int] == c.value);
            }
            let ghost before = *self;
            let rc = self.copy_below(src, c.value, fuel - 1);
            let ghost mid = *self;
            proof {
                assert forall|j: int| 0 <= j < k implies #[trigger] copy_of(mid, mid.children(r as int)[j] as int, *src, cs[j] as int,
                    (fuel - 1) as nat, r + 1, mid.len() as int) by {
                    assert(copy_of(before, before.children(r as int)[j] as int, *src, cs[j] as int, (fuel - 1) as nat, r + 1, before.len() as int));
                    assert forall|i: int| r + 1 <= i < before.len() implies #[trigger] mid.data(i) == before.data(i) && mid.children(i) == before.children(i) by {}
                    lemma_copy_kept(before, mid, before.children(r as int)[j] as int, *src, cs[j] as int, (fuel - 1) as nat,
                        r + 1, before.len() as int, r + 1, mid.len() as int);
                }
            }
            self.append_child_of(&NodeId::new(r), &NodeId::new(rc));
            let cur_len = self.nodes.len();
            proof {
                assert(self.children(r as int) == mid.children(r as int).push(rc));
                assert forall|j: int| 0 <= j < k + 1 implies #[trigger] copy_of(*self, self.children(r as int)[j] as int, *src, cs[j] as int,
                    (fuel - 1) as nat, r + 1, self.len() as int) by {
                    let cj = self.children(r as int)[j] as int;
                    if j < k {
                        assert(cj == mid.children(r as int)[j]);
                        assert(copy_of(mid, cj, *src, cs[j] as int, (fuel - 1) as nat, r + 1, mid.len() as int));
                        assert forall|i: int| r + 1 <= i < mid.len() implies #[trigger] self.data(i) == mid.data(i) && self.children(i) == mid.children(i) by {
                            assert(self.nodes@[i].data == mid.nodes@[i].data);
                        }
                        lemma_copy_kept(mid, *self, cj, *src, cs[j] as int, (fuel - 1) as nat, r + 1, mid.len() as int, r + 1, self.len() as int);
                    } else {
                        assert(cj == rc);
                        assert forall|i: int| before.len() <= i < mid.len() implies #[trigger] self.data(i) == mid.data(i) && self.children(i) == mid.children(i) by {
                            assert(self.nodes@[i].data == mid.nodes@[i].data);
                        }
                        lemma_copy_kept(mid, *self, cj, *src, cs[j] as int, (fuel - 1) as nat, before.len() as int, mid.len() as int, r + 1, self.len() as int);
                    }
                }
                assert forall|i: int| 0 <= i < lo implies {
                    &&& #[trigger] self.data(i) == t0.data(i)
                    &&& self.children(i) == t0.children(i)
                    &&& self.parent(i) == t0.parent(i)
                } by {
                    assert(self.nodes@[i].data == mid.nodes@[i].data);
                    assert(mid.data(i) == before.data(i));
                    assert(before.data(i) == t0.data(i));
                    assert(self.children(i) == mid.children(i));
                }
                assert(self.data(r as int) == mid.data(r as int)) by {
                    assert(self.nodes@[r as int].data == mid.nodes@[r as int].data);
                }
            }
            proof {
                assert(forest(*src, cs, k + 1, (fuel - 1) as nat) == forest(*src, cs, k as int, (fuel - 1) as nat)
                    + preorder(*src, cs[k as int], (fuel - 1) as nat));
            }
            k = k + 1;
        }
        proof {
            assert forall|j: int| 0 <= j < cs.len() implies #[trigger] copy_of(*self, self.children(r as int)[j] as int, *src, cs[j] as int,
                (fuel - 1) as nat, lo as int, self.len() as int) by {
                lemma_copy_kept(*self, *self, self.children(r as int)[j] as int, *src, cs[j] as int, (fuel - 1) as nat,
                    r + 1, self.len() as int, lo as int, self.len() as int);
            }
            lemma_copies(*self, self.children(r as int), *src, cs, cs.len() as int, (fuel - 1) as nat, lo as int, self.len() as int);
        }
        r
    }
}

/// A copy made from a tree with the same links and payloads is a copy made from the other.
proof fn lemma_copy_source(u: Tree, r: int, s: Tree, s2: Tree, x: int, fuel: nat, lo: int, hi: int)
    requires
        copy_of(u, r, s, x, fuel, lo, hi),
        s.len() == s2.len(),
        s.chains@ == s2.chains@,
        0 <= x < s.len(),
        forall|i: int| 0 <= i < s.len() ==> #[trigger] same_payload(s.data(i), s2.data(i)),
        forall|i: int| 0 <= i < s.len() ==> #[trigger] s.children(i) == s2.children(i),
        forall|i: int, j: int| 0 <= i < s.len() && 0 <= j < s.children(i).len() ==> #[trigger] s.children(i)[j] < s.len(),
    ensures
        copy_of(u, r, s2, x, fuel, lo, hi),
    decreases fuel,
{
    assert(same_payload(s.data(x), s2.data(x)));
    assert(s.children(x) == s2.children(x));
    if fuel > 0 {
        let f = (fuel - 1) as nat;
        let n = s.children(x).len() as int;
        lemma_copies(u, u.children(r), s, s.children(x), n, f, lo, hi);
        lemma_copies(u, u.children(r), s2, s2.children(x), n, f, lo, hi);
        assert forall|j: int| 0 <= j < n implies
            #[trigger] copy_of(u, u.children(r)[j] as int, s2, s2.children(x)[j] as int, f, lo, hi) by {
            assert(copy_of(u, u.children(r)[j] as int, s, s.children(x)[j] as int, f, lo, hi));
            assert(s.children(x)[j] < s.len());
            lemma_copy_source(u, u.children(r)[j] as int, s, s2, s.children(x)[j] as int, f, lo, hi);
        }
    }
}

/// Trees with the same children give the same walk.
proof fn lemma_preorder_source(s: Tree, s2: Tree, x: usize, fuel: nat)
    requires
        s.len() == s2.len(),
        0 <= x < s.len(),
        forall|i: int| 0 <= i < s.len() ==> #[trigger] s.children(i) == s2.children(i),
        forall|i: int, j: int| 0 <= i < s.len() && 0 <= j < s.children(i).len() ==> #[trigger] s.children(i)[j] < s.len(),
    ensures
        preorder(s, x, fuel) == preorder(s2, x, fuel),
    decreases fuel, 0int,
{
    if fuel > 0 {
        let cs = s.children(x as int);
        assert(cs == s2.children(x as int));
        lemma_forest_source(s, s2, cs, cs.len() as int, (fuel - 1) as nat);
    }
}

proof fn lemma_forest_source(s: Tree, s2: Tree, cs: Seq<usize>, k: int, fuel: nat)
    requires
        s.len() == s2.len(),
        k <= cs.len(),
        forall|j: int| 0 <= j < cs.len() ==> #[trigger] cs[j] < s.len(),
        forall|i: int| 0 <= i < s.len() ==> #[trigger] s.children(i) == s2.children(i),
        forall|i: int, j: int| 0 <= i < s.len() && 0 <= j < s.children(i).len() ==> #[trigger] s.children(i)[j] < s.len(),
    ensures
        forest(s, cs, k, fuel) == forest(s2, cs, k, fuel),
    decreases fuel, 1int, k,
{
    if k > 0 {
        lemma_forest_source(s, s2, cs, k - 1, fuel);
        assert(cs[k - 1] < s.len());
        lemma_preorder_source(s, s2, cs[k - 1], fuel);
    }
}

impl Tree {
    /// Copies node `id` of tree `src`, with all that lies below it, into this tree:
    /// the copy gets ids from this tree's size up and no parent, and its id is
    /// returned. An id out of `src` copies nothing; the id returned is then the next
    /// free one.
    pub fn copy_node(&mut self, src: &Tree, id: &NodeId) -> (r: NodeId)
        requires
            old(self).wf(),
            src.wf(),
        ensures
            final(self).wf(),
            r.value == old(self).len(),
            !src.valid(id.value as int) ==> *final(self) == *old(self),
            src.valid(id.value as int) ==> {
                &&& final(self).len() == old(self).len() + subtree(*src, id.value).len()
                &&& copy_of(*final(self), r.value as int, *src, id.value as int, src.len(), old(self).len() as int, final(self).len() as int)
                &&& final(self).parent(r.value as int) is None
                &&& forall|i: int| 0 <= i < old(self).len() ==> {
                    &&& #[trigger] final(self).data(i) == old(self).data(i)
                    &&& final(self).children(i) == old(self).children(i)
                    &&& final(self).parent(i) == old(self).parent(i)
                }
            },
    {
        if id.value >= src.nodes.len() {
            return NodeId::new(self.nodes.len());
        }
        let r = self.copy_below(src, id.value, src.nodes.len());
        NodeId::new(r)
    }

    /// A tree with the same nodes, links and payloads.
    pub fn duplicate(&self) -> (r: Tree)
        requires
            self.wf(),
        ensures
            r.wf(),
            r.len() == self.len(),
            r.chains@ == self.chains@,
            forall|i: int| 0 <= i < self.len() ==> #[trigger] same_payload(r.data(i), self.data(i)),
            forall|i: int| 0 <= i < self.len() ==> #[trigger] r.children(i) == self.children(i),
            forall|i: int| 0 <= i < self.len() ==> #[trigger] r.parent(i) == self.parent(i),
    {
        let mut nodes: Vec<TreeNode> = Vec::new();
        let mut k: usize = 0;
        while k < self.nodes.len()
            invariant
                k <= self.nodes@.len(),
                nodes@.len() == k,
                forall|i: int| 0 <= i < k ==> {
                    &&& (#[trigger] nodes@[i]).id == self.nodes@[i].id
                    &&& nodes@[i].parent == self.nodes@[i].parent
                    &&& nodes@[i].prev_sibling == self.nodes@[i].prev_sibling
                    &&& nodes@[i].next_sibling == self.nodes@[i].next_sibling
                    &&& nodes@[i].first_child == self.nodes@[i].first_child
                    &&& nodes@[i].last_child == self.nodes@[i].last_child
                    &&& same_payload(nodes@[i].data, self.nodes@[i].data)
                },
            decreases self.nodes.len() - k,
        {
            let n = &self.nodes[k];
            nodes.push(TreeNode {
                id: n.id,
                parent: n.parent,
                prev_sibling: n.prev_sibling,
                next_sibling: n.next_sibling,
                first_child: n.first_child,
                last_child: n.last_child,
                data: copy_data(&n.data),
            });
            k = k + 1;
        }
        let r = Tree { nodes, chains: Ghost(self.chains@), pos: Ghost(self.pos@), depth: Ghost(self.depth@) };
        proof {
            assert forall|i: int| 0 <= i < r.nodes@.len() implies #[trigger] node_ok(r.nodes@, r.chains@, r.pos@, r.depth@, i) by {
                assert(node_ok(self.nodes@, self.chains@, self.pos@, self.depth@, i));
                let ghost a = r.nodes@[i];
                if let Some(f) = fst(self.nodes@, i) {
                    let ghost b = r.nodes@[f as int];
                }
                if let Some(l) = lst(self.nodes@, i) {
                    let ghost b = r.nodes@[l as int];
                }
                assert(member_ok(self.nodes@.len(), self.chains@, self.pos@, i, 0));
                let ghost c0 = r.nodes@[self.chains@[i][0] as int];
                if let Some(q) = par(self.nodes@, i) {
                    let ghost b = r.nodes@[q as int];
                }
            }
            assert forall|i: int, j: int| 0 <= i < r.nodes@.len() implies #[trigger] member_ok(r.nodes@.len(), r.chains@, r.pos@, i, j) by {
                assert(member_ok(self.nodes@.len(), self.chains@, self.pos@, i, j));
            }
            assert forall|i: int| 0 <= i < self.len() implies #[trigger] r.children(i) == self.children(i) by {
                let ghost a = r.nodes@[i];
            }
        }
        r
    }

    /// Copies node `id` of this tree, with all that lies below it, as [`Tree::copy_node`]
    /// does from another tree.
    pub fn copy_node_within(&mut self, id: &NodeId) -> (r: NodeId)
        requires
            old(self).wf(),
        ensures
            final(self).wf(),
            r.value == old(self).len(),
            !old(self).valid(id.value as int) ==> *final(self) == *old(self),
            old(self).valid(id.value as int) ==> {
                &&& final(self).len() == old(self).len() + subtree(*old(self), id.value).len()
                &&& copy_of(*final(self), r.value as int, *old(self), id.value as int, old(self).len(), old(self).len() as int, final(self).len() as int)
                &&& final(self).parent(r.value as int) is None
                &&& forall|i: int| 0 <= i < old(self).len() ==> {
                    &&& #[trigger] final(self).data(i) == old(self).data(i)
                    &&& final(self).children(i) == old(self).children(i)
                    &&& final(self).parent(i) == old(self).parent(i)
                }
            },
    {
        let ghost t0 = *self;
        let snapshot = self.duplicate();
        let r = self.copy_node(&snapshot, id);
        proof {
            if t0.valid(id.value as int) {
                assert forall|i: int| 0 <= i < snapshot.len() implies #[trigger] same_payload(snapshot.data(i), t0.data(i)) by {}
                assert forall|i: int, j: int| 0 <= i < snapshot.len() && 0 <= j < snapshot.children(i).len()
                    implies #[trigger] snapshot.children(i)[j] < snapshot.len() by {
                    crate::normalize::lemma_kids(snapshot, i);
                }
                lemma_copy_source(*self, r.value as int, snapshot, t0, id.value as int, snapshot.len(), t0.len() as int, self.len() as int);
                lemma_preorder_source(snapshot, t0, id.value, snapshot.len());
            }
        }
        r
    }
}

/// Data that is an element with the local name `name`, no prefix, no namespace and no
/// attributes: what a new element holds.
pub open spec fn bare_element(d: NodeData, name: Seq<char>) -> bool {
    d matches NodeData::Element(e) && e.name.local@ == name && e.name.prefix.is_none()
        && e.name.ns@.len() == 0 && e.attrs@.len() == 0
}

impl<'a> NodeRef<'a> {
    /// A copy of the node's contents as a fragment document: the whole tree for the
    /// document node or an `html` element; else a fragment root holding an `html`
    /// element, with a detached `body` element beside it, and a copy of the node as
    /// the `html` element's child.
    pub fn to_fragment(&self) -> (r: Document)
        requires
            self.tree.wf(),
        ensures
            r.errors@ == Seq::<String>::empty(),
            r.quirks_mode == QuirksMode::NoQuirks,
            r.tree.wf(),
            (self.id.value == 0 || (element_at(*self.tree, self.id.value as int) matches Some(e) && e.name.local@ == seq!['h', 't', 'm', 'l'])) ==> {
                &&& r.tree.len() == self.tree.len()
                &&& forall|i: int| 0 <= i < self.tree.len() ==> #[trigger] same_payload(r.tree.data(i), self.tree.data(i))
                &&& forall|i: int| 0 <= i < self.tree.len() ==> #[trigger] r.tree.children(i) == self.tree.children(i)
                &&& forall|i: int| 0 <= i < self.tree.len() ==> #[trigger] r.tree.parent(i) == self.tree.parent(i)
            },
            !(self.id.value == 0 || (element_at(*self.tree, self.id.value as int) matches Some(e) && e.name.local@ == seq!['h', 't', 'm', 'l'])) ==> {
                &&& r.tree.len() >= 3
                &&& r.tree.data(0) == NodeData::Fragment
                &&& bare_element(r.tree.data(1), seq!['b', 'o', 'd', 'y'])
                &&& r.tree.parent(1) is None
                &&& bare_element(r.tree.data(2), seq!['h', 't', 'm', 'l'])
                &&& r.tree.parent(2) == Some(0usize)
                &&& r.tree.children(0) == seq![2usize]
                &&& self.tree.valid(self.id.value as int) ==> {
                    &&& r.tree.children(2) == seq![3usize]
                    &&& r.tree.parent(3) == Some(2usize)
                    &&& copy_of(r.tree, 3, *self.tree, self.id.value as int, self.tree.len(), 3, r.tree.len() as int)
                }
                &&& !self.tree.valid(self.id.value as int) ==> r.tree.len() == 3 && r.tree.children(2) == Seq::<usize>::empty()
            },
    {
        proof {
            reveal_strlit("html");
            reveal_strlit("body");
            assert("html"@ =~= seq!['h', 't', 'm', 'l']);
            assert("body"@ =~= seq!['b', 'o', 'd', 'y']);
        }
        if self.id.value == 0 || self.has_name("html") {
            let mut d = Document::default();
            d.tree = self.tree.duplicate();
            return d;
        }
        let mut frag = Document::fragment_sink();
        let ghost t0 = frag.tree;
        proof {
            assert(node_ok(t0.nodes@, t0.chains@, t0.pos@, t0.depth@, 0));
            assert(t0.parent(0) is None);
        }
        let body = frag.tree.new_element("body");
        let ghost t1 = frag.tree;
        let html = frag.tree.new_element("html");
        let ghost t2 = frag.tree;
        proof {
            assert(t2.nodes@[1] == t1.nodes@[1]);
            assert(t2.nodes@[0] == t1.nodes@[0]);
            assert(t1.nodes@[0] == t0.nodes@[0]);
            assert(t2.parent(0) is None);
            assert(t2.children(0) == Seq::<usize>::empty());
            assert(t2.children(2) == Seq::<usize>::empty());
            assert(!is_desc(t2.nodes@, t2.depth@, 0, 2));
        }
        frag.tree.append_child_of(&NodeId::new(0), &html);
        let ghost t3 = frag.tree;
        proof {
            assert(t3.children(0) == seq![2usize]);
            assert(t3.children(2) == Seq::<usize>::empty());
            assert(t3.parent(0) is None);
            assert(t3.parent(1) is None);
            assert(t3.parent(2) == Some(0usize));
            assert(t3.nodes@[0].data == t2.nodes@[0].data);
            assert(t3.nodes@[1].data == t2.nodes@[1].data);
            assert(t3.nodes@[2].data == t2.nodes@[2].data);
        }
        let copy = frag.tree.copy_node(self.tree, &self.id);
        let ghost t4 = frag.tree;
        let l4 = frag.tree.nodes.len();
        if self.id.value < self.tree.nodes.len() {
            proof {
                let d0 = t4.data(0);
                let d1 = t4.data(1);
                let d2 = t4.data(2);
                assert(node_ok(t4.nodes@, t4.chains@, t4.pos@, t4.depth@, 2));
                assert(!is_desc(t4.nodes@, t4.depth@, 0, 3));
                assert(!is_desc(t4.nodes@, t4.depth@, 2, 3));
            }
            frag.tree.append_child_of(&html, &copy);
            proof {
                let u = frag.tree;
                assert forall|i: int| 3 <= i < t4.len() implies #[trigger] u.data(i) == t4.data(i) && u.children(i) == t4.children(i) by {
                    assert(u.nodes@[i].data == t4.nodes@[i].data);
                }
                lemma_copy_kept(t4, u, 3, *self.tree, self.id.value as int, self.tree.len(), 3, t4.len() as int, 3, u.len() as int);
                assert(u.nodes@[0].data == t4.nodes@[0].data);
                assert(u.nodes@[1].data == t4.nodes@[1].data);
                assert(u.nodes@[2].data == t4.nodes@[2].data);
                assert(u.children(0) == t4.children(0));
                assert(u.children(2) == seq![3usize]);
                assert(u.parent(1) == t4.parent(1));
                assert(u.parent(2) == t4.parent(2));
            }
        }
        frag
    }
}

} // verus!