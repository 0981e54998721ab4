//! A selection: nodes of one tree, in order, and what can be read of them together.
use vstd::prelude::*;
use crate::node::{NodeId, Attr};
use crate::tree::Tree;
use crate::noderef::{NodeRef, ref_ids};
use crate::node_api::{attr_of, element_at};
use crate::element::{opt_view, lit_class, lit_id};
use crate::text::{has_word, push_str};
use crate::subtree::{subtree, texts};
use crate::query::{first_element_from, last_element_before};
use crate::tree_api::{limited, opt_ref};
use crate::query::ids_of;

verus! {

/// `s` without repetitions: the first occurrence of each id stays.
pub open spec fn dedup_ids(s: Seq<usize>) -> Seq<usize>
    decreases s.len(),
{
    if s.len() == 0 {
        s
    } else {
        let d = dedup_ids(s.drop_last());
        if d.contains(s.last()) { d } else { d.push(s.last()) }
    }
}

/// The parents of the nodes of `s` that have one, in order.
pub open spec fn parents_of(t: Tree, s: Seq<usize>) -> Seq<usize>
    decreases s.len(),
{
    if s.len() == 0 {
        Seq::empty()
    } else {
        let d = parents_of(t, s.drop_last());
        match (if t.valid(s.last() as int) { t.parent(s.last() as int) } else { None }) {
            Some(v) => d.push(v),
            None => d,
        }
    }
}

/// The next element siblings of the nodes of `s` that have one, in order.
pub open spec fn next_elements_of(t: Tree, s: Seq<usize>) -> Seq<usize>
    decreases s.len(),
{
    if s.len() == 0 {
        Seq::empty()
    } else {
        let d = next_elements_of(t, s.drop_last());
        let x = s.last() as int;
        match (if t.valid(x) { first_element_from(&t, t.siblings(x), t.index(x) + 1) } else { None }) {
            Some(v) => d.push(v),
            None => d,
        }
    }
}

/// The previous element siblings of the nodes of `s` that have one, in order.
pub open spec fn prev_elements_of(t: Tree, s: Seq<usize>) -> Seq<usize>
    decreases s.len(),
{
    if s.len() == 0 {
        Seq::empty()
    } else {
        let d = prev_elements_of(t, s.drop_last());
        let x = s.last() as int;
        match (if t.valid(x) { last_element_before(&t, t.siblings(x), t.index(x)) } else { None }) {
            Some(v) => d.push(v),
            None => d,
        }
    }
}

/// The element nodes among `s`, in order.
pub open spec fn elements_in(t: Tree, s: Seq<usize>) -> Seq<usize> {
    s.filter(|x: usize| t.valid(x as int) && t.data(x as int) is Element)
}

/// The child elements of node `x`.
pub open spec fn child_elements(t: Tree, x: usize) -> Seq<usize> {
    if t.valid(x as int) { elements_in(t, t.children(x as int)) } else { Seq::empty() }
}

/// The ancestor elements of node `x`, nearest first, limited as a walk up with
/// `max_depth` is.
pub open spec fn ancestor_elements(t: Tree, x: usize, max_depth: Option<usize>) -> Seq<usize> {
    if t.valid(x as int) { elements_in(t, limited(t.ancestors(x as int), max_depth)) } else { Seq::empty() }
}

/// The results of `f` on the nodes of `s`, one after the other.
pub open spec fn gathered(s: Seq<usize>, f: spec_fn(usize) -> Seq<usize>) -> Seq<usize>
    decreases s.len(),
{
    if s.len() == 0 { Seq::empty() } else { gathered(s.drop_last(), f) + f(s.last()) }
}

/// The texts `f` gives of the nodes of `s`, one after the other.
pub open spec fn text_per_node(s: Seq<usize>, f: spec_fn(usize) -> Seq<char>) -> Seq<char>
    decreases s.len(),
{
    if s.len() == 0 { Seq::empty() } else { text_per_node(s.drop_last(), f) + f(s.last()) }
}

/// Removing repetitions after one more id: it is kept when new.
proof fn lemma_dedup_push(d: Seq<usize>, v: usize)
    ensures
        dedup_ids(d.push(v)) == (if dedup_ids(d).contains(v) { dedup_ids(d) } else { dedup_ids(d).push(v) }),
{
    assert(d.push(v).drop_last() =~= d);
}

/// The items of `s` whose flag in `f` is set, in order.
pub open spec fn kept_by_flags<T>(s: Seq<T>, f: Seq<bool>) -> Seq<T>
    decreases s.len(),
{
    if s.len() == 0 || f.len() != s.len() {
        Seq::empty()
    } else if f.last() {
        kept_by_flags(s.drop_last(), f.drop_last()).push(s.last())
    } else {
        kept_by_flags(s.drop_last(), f.drop_last())
    }
}

/// A set of nodes of a tree, in order.
pub struct Selection<'a> {
    pub nodes: Vec<NodeRef<'a>>,
}

/// Appends `id` to `out` unless it holds it already.
fn push_unique<'a>(out: &mut Vec<NodeRef<'a>>, id: NodeId, tree: &'a Tree)
    requires
        forall|j: int| 0 <= j < old(out)@.len() ==> *(#[trigger] old(out)@[j]).tree == *tree,
    ensures
        ref_ids(final(out)@) == (if ref_ids(old(out)@).contains(id.value) { ref_ids(old(out)@) } else { ref_ids(old(out)@).push(id.value) }),
        forall|j: int| 0 <= j < final(out)@.len() ==> *(#[trigger] final(out)@[j]).tree == *tree,
{
    let mut k: usize = 0;
    while k < out.len()
        invariant
            k <= out@.len(),
            out@ == old(out)@,
            forall|j: int| 0 <= j < out@.len() ==> *(#[trigger] out@[j]).tree == *tree,
            forall|j: int| 0 <= j < k ==> (#[trigger] out@[j]).id.value != id.value,
        decreases out.len() - k,
    {
        if out[k].id.value == id.value {
            proof {
                assert(ref_ids(out@)[k as int] == id.value);
            }
            return;
        }
        k = k + 1;
    }
    proof {
        assert(!ref_ids(out@).contains(id.value)) by {
            if ref_ids(out@).contains(id.value) {
                let w = choose|w: int| 0 <= w < ref_ids(out@).len() && ref_ids(out@)[w] == id.value;
                assert(out@[w].id.value == id.value);
            }
        }
    }
    out.push(NodeRef::new(id, tree));
    proof {
        assert(ref_ids(out@) =~= ref_ids(old(out)@).push(id.value));
    }
}

impl<'a> Selection<'a> {
    /// All nodes belong to `t`.
    pub open spec fn in_tree(&self, t: Tree) -> bool {
        forall|j: int| 0 <= j < self.nodes@.len() ==> *(#[trigger] self.nodes@[j]).tree == t
    }

    /// The ids of the nodes, in order.
    pub open spec fn ids(&self) -> Seq<usize> {
        ref_ids(self.nodes@)
    }

    /// A selection of the given nodes.
    pub fn from_nodes(nodes: Vec<NodeRef<'a>>) -> (r: Self)
        ensures
            r.nodes == nodes,
    {
        Selection { nodes }
    }

    /// A selection of one node.
    pub fn from_node(node: NodeRef<'a>) -> (r: Self)
        ensures
            r.nodes@ == seq![node],
    {
        Selection { nodes: vec![node] }
    }

    /// The nodes of the selection.
    pub fn nodes(&self) -> (r: &[NodeRef<'a>])
        ensures
            r@ == self.nodes@,
    {
        self.nodes.as_slice()
    }

    /// The ids of the nodes, in order: what the tree's editing methods take.
    pub fn node_ids(&self) -> (r: Vec<NodeId>)
        ensures
            ids_of(r@) == self.ids(),
    {
        let mut out: Vec<NodeId> = Vec::new();
        let mut k: usize = 0;
        while k < self.nodes.len()
            invariant
                k <= self.nodes@.len(),
                ids_of(out@) == self.ids().take(k as int),
            decreases self.nodes.len() - k,
        {
            let ghost before = out@;
            proof {
                assert(self.ids().take(k + 1) =~= self.ids().take(k as int).push(self.nodes@[k as int].id.value));
            }
            out.push(self.nodes[k].id);
            proof {
                assert(ids_of(out@) =~= ids_of(before).push(self.nodes@[k as int].id.value));
            }
            k = k + 1;
        }
        proof {
            assert(self.ids().take(k as int) =~= self.ids());
        }
        out
    }

    /// The number of nodes.
    pub fn length(&self) -> (r: usize)
        ensures
            r == self.nodes@.len(),
    {
        self.nodes.len()
    }

    /// The number of nodes.
    pub fn size(&self) -> (r: usize)
        ensures
            r == self.nodes@.len(),
    {
        self.nodes.len()
    }

    /// Whether the selection has a node.
    pub fn has_nodes(&self) -> (r: bool)
        ensures
            r == (self.nodes@.len() > 0),
    {
        self.nodes.len() > 0
    }

    /// Whether the selection has no node.
    pub fn is_empty(&self) -> (r: bool)
        ensures
            r == (self.nodes@.len() == 0),
    {
        self.nodes.len() == 0
    }

    /// The node at `index`.
    pub fn get(&self, index: usize) -> (r: Option<&NodeRef<'a>>)
        ensures
            match r {
                Some(n) => index < self.nodes@.len() && *n == self.nodes@[index as int],
                None => index >= self.nodes@.len(),
            },
    {
        if index < self.nodes.len() {
            Some(&self.nodes[index])
        } else {
            None
        }
    }

    /// The first node alone, or an empty selection.
    pub fn first(&self) -> (r: Selection<'a>)
        ensures
            r.nodes@ == (if self.nodes@.len() > 0 { seq![self.nodes@[0]] } else { Seq::empty() }),
    {
        if self.nodes.len() > 0 {
            let n = &self.nodes[0];
            Selection { nodes: vec![NodeRef::new(n.id, n.tree)] }
        } else {
            Selection { nodes: Vec::new() }
        }
    }

    /// The last node alone, or an empty selection.
    pub fn last(&self) -> (r: Selection<'a>)
        ensures
            r.nodes@ == (if self.nodes@.len() > 0 { seq![self.nodes@.last()] } else { Seq::empty() }),
    {
        if self.nodes.len() > 0 {
            let n = &self.nodes[self.nodes.len() - 1];
            Selection { nodes: vec![NodeRef::new(n.id, n.tree)] }
        } else {
            Selection { nodes: Vec::new() }
        }
    }

    /// The value of attribute `name` of the first node.
    pub fn attr(&self, name: &str) -> (r: Option<String>)
        ensures
            opt_view(r) == (if self.nodes@.len() > 0 {
                attr_of(*self.nodes@[0].tree, self.nodes@[0].id.value as int, name@)
            } else {
                None
            }),
    {
        if self.nodes.len() > 0 { self.nodes[0].attr(name) } else { None }
    }

    /// The attributes of the first node.
    pub fn attrs(&self) -> (r: Vec<Attr>)
        ensures
            r@ == (if self.nodes@.len() > 0 {
                match element_at(*self.nodes@[0].tree, self.nodes@[0].id.value as int) {
                    Some(e) => e.attrs@,
                    None => Seq::empty(),
                }
            } else {
                Seq::empty()
            }),
    {
        if self.nodes.len() > 0 { self.nodes[0].attrs() } else { Vec::new() }
    }

    /// Whether the first node has attribute `name`.
    pub fn has_attr(&self, name: &str) -> (r: bool)
        ensures
            r == (self.nodes@.len() > 0 && attr_of(*self.nodes@[0].tree, self.nodes@[0].id.value as int, name@) is Some),
    {
        self.nodes.len() > 0 && self.nodes[0].has_attr(name)
    }

    /// The value of attribute `name` of the first node, or `default`.
    pub fn attr_or(&self, name: &str, default: &str) -> (r: String)
        ensures
            r@ == (match (if self.nodes@.len() > 0 {
                attr_of(*self.nodes@[0].tree, self.nodes@[0].id.value as int, name@)
            } else {
                None
            }) {
                Some(v) => v,
                None => default@,
            }),
    {
        match self.attr(name) {
            Some(v) => v,
            None => default.to_owned(),
        }
    }

    /// The `id` attribute of the first node.
    pub fn id(&self) -> (r: Option<String>)
        ensures
            opt_view(r) == (if self.nodes@.len() > 0 {
                attr_of(*self.nodes@[0].tree, self.nodes@[0].id.value as int, lit_id())
            } else {
                None
            }),
    {
        if self.nodes.len() > 0 { self.nodes[0].id_attr() } else { None }
    }

    /// The `class` attribute of the first node.
    pub fn class(&self) -> (r: Option<String>)
        ensures
            opt_view(r) == (if self.nodes@.len() > 0 {
                attr_of(*self.nodes@[0].tree, self.nodes@[0].id.value as int, lit_class())
            } else {
                None
            }),
    {
        if self.nodes.len() > 0 { self.nodes[0].class() } else { None }
    }

    /// Whether some node has the class `class`.
    pub fn has_class(&self, class: &str) -> (r: bool)
        ensures
            r == exists|j: int| 0 <= j < self.nodes@.len() && (attr_of(*(#[trigger] self.nodes@[j]).tree,
                self.nodes@[j].id.value as int, lit_class()) matches Some(v) && has_word(v, class@, true)),
    {
        let mut k: usize = 0;
        while k < self.nodes.len()
            invariant
                k <= self.nodes@.len(),
                forall|j: int| 0 <= j < k ==> !(attr_of(*(#[trigger] self.nodes@[j]).tree,
                    self.nodes@[j].id.value as int, lit_class()) matches Some(v) && has_word(v, class@, true)),
            decreases self.nodes.len() - k,
        {
            if self.nodes[k].has_class(class) {
                return true;
            }
            k = k + 1;
        }
        false
    }

    /// The text of every node with its descendants, one after the other.
    pub fn text(&self) -> (r: String)
        requires
            forall|j: int| 0 <= j < self.nodes@.len() ==> (#[trigger] self.nodes@[j]).tree.wf(),
            self.nodes@.len() > 0 ==> self.in_tree(*self.nodes@[0].tree),
        ensures
            self.nodes@.len() > 0 ==> r@ == text_per_node(self.ids(), |x: usize| {
                let t = *self.nodes@[0].tree;
                if t.valid(x as int) { texts(t, subtree(t, x)) } else { Seq::empty() }
            }),
            self.nodes@.len() == 0 ==> r@ == Seq::<char>::empty(),
    {
        let mut s = String::new();
        let mut k: usize = 0;
        while k < self.nodes.len()
            invariant
                k <= self.nodes@.len(),
                forall|j: int| 0 <= j < self.nodes@.len() ==> (#[trigger] self.nodes@[j]).tree.wf(),
                self.nodes@.len() > 0 ==> self.in_tree(*self.nodes@[0].tree),
                self.nodes@.len() > 0 ==> s@ == text_per_node(self.ids().take(k as int), |x: usize| {
                    let t = *self.nodes@[0].tree;
                    if t.valid(x as int) { texts(t, subtree(t, x)) } else { Seq::empty() }
                }),
                self.nodes@.len() == 0 ==> s@ == Seq::<char>::empty(),
            decreases self.nodes.len() - k,
        {
            let piece = self.nodes[k].text();
            push_str(&mut s, piece.as_str());
            proof {
                assert(self.ids().take(k + 1).drop_last() =~= self.ids().take(k as int));
                assert(*self.nodes@[k as int].tree == *self.nodes@[0].tree);
            }
            k = k + 1;
        }
        proof {
            assert(self.ids().take(k as int) =~= self.ids());
        }
        s
    }

    /// The text of every node without its descendants, one after the other.
    pub fn immediate_text(&self) -> (r: String)
        requires
            forall|j: int| 0 <= j < self.nodes@.len() ==> (#[trigger] self.nodes@[j]).tree.wf(),
            self.nodes@.len() > 0 ==> self.in_tree(*self.nodes@[0].tree),
        ensures
            self.nodes@.len() > 0 ==> r@ == text_per_node(self.ids(), |x: usize| {
                let t = *self.nodes@[0].tree;
                if t.valid(x as int) { texts(t, t.children(x as int)) } else { Seq::empty() }
            }),
            self.nodes@.len() == 0 ==> r@ == Seq::<char>::empty(),
    {
        let mut s = String::new();
        let mut k: usize = 0;
        while k < self.nodes.len()
            invariant
                k <= self.nodes@.len(),
                forall|j: int| 0 <= j < self.nodes@.len() ==> (#[trigger] self.nodes@[j]).tree.wf(),
                self.nodes@.len() > 0 ==> self.in_tree(*self.nodes@[0].tree),
                self.nodes@.len() > 0 ==> s@ == text_per_node(self.ids().take(k as int), |x: usize| {
                    let t = *self.nodes@[0].tree;
                    if t.valid(x as int) { texts(t, t.children(x as int)) } else { Seq::empty() }
                }),
                self.nodes@.len() == 0 ==> s@ == Seq::<char>::empty(),
            decreases self.nodes.len() - k,
        {
            let piece = self.nodes[k].immediate_text();
            push_str(&mut s, piece.as_str());
            proof {
                assert(self.ids().take(k + 1).drop_last() =~= self.ids().take(k as int));
                assert(*self.nodes@[k as int].tree == *self.nodes@[0].tree);
            }
            k = k + 1;
        }
        proof {
            assert(self.ids().take(k as int) =~= self.ids());
        }
        s
    }

    /// The formatted text of every node, itself included, one after the other
    /// (see [`crate::text_format::format_text`]).
    pub fn formatted_text(&self) -> (r: String)
        requires
            forall|j: int| 0 <= j < self.nodes@.len() ==> (#[trigger] self.nodes@[j]).tree.wf(),
            self.nodes@.len() > 0 ==> self.in_tree(*self.nodes@[0].tree),
        ensures
            self.nodes@.len() > 0 ==> r@ == text_per_node(self.ids(), |x: usize| {
                let t = *self.nodes@[0].tree;
                if t.valid(x as int) { crate::text_format::formatted(t, x, true) } else { Seq::empty() }
            }),
            self.nodes@.len() == 0 ==> r@ == Seq::<char>::empty(),
    {
        let mut s = String::new();
        let mut k: usize = 0;
        while k < self.nodes.len()
            invariant
                k <= self.nodes@.len(),
                forall|j: int| 0 <= j < self.nodes@.len() ==> (#[trigger] self.nodes@[j]).tree.wf(),
                self.nodes@.len() > 0 ==> self.in_tree(*self.nodes@[0].tree),
                self.nodes@.len() > 0 ==> s@ == text_per_node(self.ids().take(k as int), |x: usize| {
                    let t = *self.nodes@[0].tree;
                    if t.valid(x as int) { crate::text_format::formatted(t, x, true) } else { Seq::empty() }
                }),
                self.nodes@.len() == 0 ==> s@ == Seq::<char>::empty(),
            decreases self.nodes.len() - k,
        {
            let n = &self.nodes[k];
            let piece = crate::text_format::format_text(n.tree, &n.id, true);
            push_str(&mut s, piece.as_str());
            proof {
                assert(self.ids().take(k + 1).drop_last() =~= self.ids().take(k as int));
                assert(*self.nodes@[k as int].tree == *self.nodes@[0].tree);
            }
            k = k + 1;
        }
        proof {
            assert(self.ids().take(k as int) =~= self.ids());
        }
        s
    }

    /// Whether the two selections share a node.
    pub fn is_selection(&self, other: &Selection) -> (r: bool)
        ensures
            r == exists|j: int| 0 <= j < self.nodes@.len() && other.ids().contains(#[trigger] self.ids()[j]),
    {
        let mut k: usize = 0;
        while k < self.nodes.len()
            invariant
                k <= self.nodes@.len(),
                forall|j: int| 0 <= j < k ==> !other.ids().contains(#[trigger] self.ids()[j]),
            decreases self.nodes.len() - k,
        {
            if contains_id(&other.nodes, self.nodes[k].id.value) {
                proof {
                    assert(self.ids()[k as int] == self.nodes@[k as int].id.value);
                }
                return true;
            }
            k = k + 1;
        }
        false
    }

    /// The nodes that `other` has too; all of them when either selection is empty.
    pub fn filter_selection(&self, other: &Selection) -> (r: Selection<'a>)
        ensures
            ref_ids(r.nodes@) == (if self.nodes@.len() == 0 || other.nodes@.len() == 0 {
                self.ids()
            } else {
                self.ids().filter(|x: usize| other.ids().contains(x))
            }),
    {
        let keep_all = self.nodes.len() == 0 || other.nodes.len() == 0;
        let mut out: Vec<NodeRef<'a>> = Vec::new();
        let mut k: usize = 0;
        let ghost pred = |x: usize| other.ids().contains(x);
        proof {
            reveal(Seq::filter);
            assert(self.ids().take(0).filter(pred) =~= Seq::<usize>::empty());
        }
        while k < self.nodes.len()
            invariant
                k <= self.nodes@.len(),
                pred == (|x: usize| other.ids().contains(x)),
                ref_ids(out@) == (if keep_all { self.ids().take(k as int) } else { self.ids().take(k as int).filter(pred) }),
            decreases self.nodes.len() - k,
        {
            let n = &self.nodes[k];
            proof {
                reveal(Seq::filter);
                assert(self.ids().take(k + 1).drop_last() =~= self.ids().take(k as int));
                assert(self.ids().take(k + 1).last() == n.id.value);
            }
            if keep_all || contains_id(&other.nodes, n.id.value) {
                out.push(NodeRef::new(n.id, n.tree));
            }
            k = k + 1;
            proof {
                assert(ref_ids(out@) =~= (if keep_all { self.ids().take(k as int) } else { self.ids().take(k as int).filter(pred) }));
            }
        }
        proof {
            assert(self.ids().take(k as int) =~= self.ids());
        }
        Selection { nodes: out }
    }

    /// The nodes whose flag is set, in order: `flags[i]` says whether node `i` stays.
    pub fn filter_flags(&self, flags: &Vec<bool>) -> (r: Selection<'a>)
        requires
            flags@.len() == self.nodes@.len(),
        ensures
            r.nodes@ == kept_by_flags(self.nodes@, flags@),
    {
        let mut out: Vec<NodeRef<'a>> = Vec::new();
        let mut k: usize = 0;
        while k < self.nodes.len()
            invariant
                k <= self.nodes@.len(),
                flags@.len() == self.nodes@.len(),
                out@ == kept_by_flags(self.nodes@.take(k as int), flags@.take(k as int)),
            decreases self.nodes.len() - k,
        {
            proof {
                assert(self.nodes@.take(k + 1).drop_last() =~= self.nodes@.take(k as int));
                assert(flags@.take(k + 1).drop_last() =~= flags@.take(k as int));
            }
            if flags[k] {
                let n = &self.nodes[k];
                out.push(NodeRef::new(n.id, n.tree));
            }
            k = k + 1;
        }
        proof {
            assert(self.nodes@.take(k as int) =~= self.nodes@);
            assert(flags@.take(k as int) =~= flags@);
        }
        Selection { nodes: out }
    }

    /// The nodes of this selection, then those of `other` that it does not have.
    pub fn add_selection(&self, other: &Selection<'a>) -> (r: Selection<'a>)
        requires
            self.nodes@.len() > 0 && other.nodes@.len() > 0 ==> *self.nodes@[0].tree == *other.nodes@[0].tree,
        ensures
            ref_ids(r.nodes@) == self.ids() + other.ids().filter(|x: usize| !self.ids().contains(x)),
    {
        let mut out: Vec<NodeRef<'a>> = Vec::new();
        let mut k: usize = 0;
        while k < self.nodes.len()
            invariant
                k <= self.nodes@.len(),
                ref_ids(out@) == self.ids().take(k as int),
            decreases self.nodes.len() - k,
        {
            let n = &self.nodes[k];
            proof {
                assert(self.ids().take(k + 1) =~= self.ids().take(k as int).push(n.id.value));
            }
            out.push(NodeRef::new(n.id, n.tree));
            k = k + 1;
            proof {
                assert(ref_ids(out@) =~= self.ids().take(k as int));
            }
        }
        proof {
            assert(self.ids().take(k as int) =~= self.ids());
        }
        let ghost pred = |x: usize| !self.ids().contains(x);
        let mut m: usize = 0;
        proof {
            reveal(Seq::filter);
            assert(other.ids().take(0).filter(pred) =~= Seq::<usize>::empty());
            assert(ref_ids(out@) =~= self.ids() + other.ids().take(0).filter(pred));
        }
        while m < other.nodes.len()
            invariant
                m <= other.nodes@.len(),
                pred == (|x: usize| !self.ids().contains(x)),
                ref_ids(out@) == self.ids() + other.ids().take(m as int).filter(pred),
            decreases other.nodes.len() - m,
        {
            let n = &other.nodes[m];
            proof {
                reveal(Seq::filter);
                assert(other.ids().take(m + 1).drop_last() =~= other.ids().take(m as int));
                assert(other.ids().take(m + 1).last() == n.id.value);
            }
            let ghost before = out@;
            if !contains_id(&self.nodes, n.id.value) {
                out.push(NodeRef::new(n.id, n.tree));
                proof {
                    assert(ref_ids(out@) =~= ref_ids(before).push(n.id.value));
                }
            }
            m = m + 1;
            proof {
                assert(ref_ids(out@) =~= self.ids() + other.ids().take(m as int).filter(pred));
            }
        }
        proof {
            assert(other.ids().take(m as int) =~= other.ids());
        }
        Selection { nodes: out }
    }
}

/// Whether a node of `v` has the id `x`.
fn contains_id(v: &Vec<NodeRef>, x: usize) -> (r: bool)
    ensures
        r == ref_ids(v@).contains(x),
{
    let mut k: usize = 0;
    while k < v.len()
        invariant
            k <= v@.len(),
            forall|j: int| 0 <= j < k ==> (#[trigger] v@[j]).id.value != x,
        decreases v.len() - k,
    {
        if v[k].id.value == x {
            proof {
                assert(ref_ids(v@)[k as int] == x);
            }
            return true;
        }
        k = k + 1;
    }
    proof {
        if ref_ids(v@).contains(x) {
            let w = choose|w: int| 0 <= w < ref_ids(v@).len() && ref_ids(v@)[w] == x;
            assert(v@[w].id.value == x);
        }
    }
    false
}

/// Appends the element nodes among `ids` to `out`, skipping those it holds.
fn extend_elements<'a>(out: &mut Vec<NodeRef<'a>>, tree: &'a Tree, ids: &Vec<NodeId>, Ghost(g): Ghost<Seq<usize>>)
    requires
        ref_ids(old(out)@) == dedup_ids(g),
        forall|j: int| 0 <= j < old(out)@.len() ==> *(#[trigger] old(out)@[j]).tree == *tree,
    ensures
        ref_ids(final(out)@) == dedup_ids(g + elements_in(*tree, ids_of(ids@))),
        forall|j: int| 0 <= j < final(out)@.len() ==> *(#[trigger] final(out)@[j]).tree == *tree,
{
    let ghost pred = |x: usize| tree.valid(x as int) && tree.data(x as int) is Element;
    let ghost all = ids_of(ids@);
    let mut j: usize = 0;
    proof {
        reveal(Seq::filter);
        assert(all.take(0).filter(pred) =~= Seq::<usize>::empty());
        assert(g + all.take(0).filter(pred) =~= g);
    }
    while j < ids.len()
        invariant
            j <= ids@.len(),
            all == ids_of(ids@),
            pred == (|x: usize| tree.valid(x as int) && tree.data(x as int) is Element),
            ref_ids(out@) == dedup_ids(g + all.take(j as int).filter(pred)),
            forall|i: int| 0 <= i < out@.len() ==> *(#[trigger] out@[i]).tree == *tree,
        decreases ids.len() - j,
    {
        let c = ids[j];
        let ghost e = all.take(j as int).filter(pred);
        proof {
            reveal(Seq::filter);
            assert(all.take(j + 1).drop_last() =~= all.take(j as int));
            assert(all.take(j + 1).last() == c.value);
        }
        let is_el = match tree.get_node(&c) {
            Some(n) => n.is_element(),
            None => false,
        };
        if is_el {
            push_unique(out, c, tree);
            proof {
                assert(all.take(j + 1).filter(pred) == e.push(c.value));
                assert(g + e.push(c.value) =~= (g + e).push(c.value));
                lemma_dedup_push(g + e, c.value);
            }
        } else {
            proof {
                assert(all.take(j + 1).filter(pred) == e);
            }
        }
        j = j + 1;
    }
    proof {
        assert(all.take(j as int) =~= all);
    }
}

impl<'a> Selection<'a> {
    /// The parents of the nodes, each once, in order of first appearance.
    pub fn parent(&self) -> (r: Selection<'a>)
        requires
            self.nodes@.len() > 0 ==> self.in_tree(*self.nodes@[0].tree),
        ensures
            self.nodes@.len() == 0 ==> r.nodes@.len() == 0,
            self.nodes@.len() > 0 ==> ref_ids(r.nodes@) == dedup_ids(parents_of(*self.nodes@[0].tree, self.ids())),
    {
        let mut out: Vec<NodeRef<'a>> = Vec::new();
        if self.nodes.len() == 0 {
            return Selection { nodes: out };
        }
        let tree = self.nodes[0].tree;
        let mut k: usize = 0;
        while k < self.nodes.len()
            invariant
                k <= self.nodes@.len(),
                self.in_tree(*tree),
                ref_ids(out@) == dedup_ids(parents_of(*tree, self.ids().take(k as int))),
                forall|j: int| 0 <= j < out@.len() ==> *(#[trigger] out@[j]).tree == *tree,
            decreases self.nodes.len() - k,
        {
            let n = &self.nodes[k];
            proof {
                assert(self.ids().take(k + 1).drop_last() =~= self.ids().take(k as int));
                assert(self.ids().take(k + 1).last() == n.id.value);
                assert(*n.tree == *tree);
            }
            let ghost d = parents_of(*tree, self.ids().take(k as int));
            let r = tree.parent_of(&n.id);
            proof {
                assert(parents_of(*tree, self.ids().take(k + 1)) == match opt_ref(r) {
                    Some(v) => d.push(v),
                    None => d,
                });
            }
            if let Some(p) = r {
                push_unique(&mut out, p.id, tree);
                proof {
                    lemma_dedup_push(d, p.id.value);
                }
            }
            k = k + 1;
        }
        proof {
            assert(self.ids().take(k as int) =~= self.ids());
        }
        Selection { nodes: out }
    }

    /// The next element siblings of the nodes, each once, in order of first appearance.
    pub fn next_sibling(&self) -> (r: Selection<'a>)
        requires
            self.nodes@.len() > 0 ==> self.in_tree(*self.nodes@[0].tree) && self.nodes@[0].tree.wf(),
        ensures
            self.nodes@.len() == 0 ==> r.nodes@.len() == 0,
            self.nodes@.len() > 0 ==> ref_ids(r.nodes@) == dedup_ids(next_elements_of(*self.nodes@[0].tree, self.ids())),
    {
        let mut out: Vec<NodeRef<'a>> = Vec::new();
        if self.nodes.len() == 0 {
            return Selection { nodes: out };
        }
        let tree = self.nodes[0].tree;
        let mut k: usize = 0;
        while k < self.nodes.len()
            invariant
                k <= self.nodes@.len(),
                self.in_tree(*tree),
                tree.wf(),
                ref_ids(out@) == dedup_ids(next_elements_of(*tree, self.ids().take(k as int))),
                forall|j: int| 0 <= j < out@.len() ==> *(#[trigger] out@[j]).tree == *tree,
            decreases self.nodes.len() - k,
        {
            let n = &self.nodes[k];
            proof {
                assert(self.ids().take(k + 1).drop_last() =~= self.ids().take(k as int));
                assert(self.ids().take(k + 1).last() == n.id.value);
            }
            let ghost d = next_elements_of(*tree, self.ids().take(k as int));
            let r = crate::ops::TreeNodeOps::next_element_sibling_of(tree, &n.id);
            proof {
                assert(next_elements_of(*tree, self.ids().take(k + 1)) == match crate::node::opt_idx(r) {
                    Some(v) => d.push(v),
                    None => d,
                });
            }
            if let Some(s) = r {
                push_unique(&mut out, s, tree);
                proof {
                    lemma_dedup_push(d, s.value);
                }
            }
            k = k + 1;
        }
        proof {
            assert(self.ids().take(k as int) =~= self.ids());
        }
        Selection { nodes: out }
    }

    /// The previous element siblings of the nodes, each once, in order of first appearance.
    pub fn prev_sibling(&self) -> (r: Selection<'a>)
        requires
            self.nodes@.len() > 0 ==> self.in_tree(*self.nodes@[0].tree) && self.nodes@[0].tree.wf(),
        ensures
            self.nodes@.len() == 0 ==> r.nodes@.len() == 0,
            self.nodes@.len() > 0 ==> ref_ids(r.nodes@) == dedup_ids(prev_elements_of(*self.nodes@[0].tree, self.ids())),
    {
        let mut out: Vec<NodeRef<'a>> = Vec::new();
        if self.nodes.len() == 0 {
            return Selection { nodes: out };
        }
        let tree = self.nodes[0].tree;
        let mut k: usize = 0;
        while k < self.nodes.len()
            invariant
                k <= self.nodes@.len(),
                self.in_tree(*tree),
                tree.wf(),
                ref_ids(out@) == dedup_ids(prev_elements_of(*tree, self.ids().take(k as int))),
                forall|j: int| 0 <= j < out@.len() ==> *(#[trigger] out@[j]).tree == *tree,
            decreases self.nodes.len() - k,
        {
            let n = &self.nodes[k];
            proof {
                assert(self.ids().take(k + 1).drop_last() =~= self.ids().take(k as int));
                assert(self.ids().take(k + 1).last() == n.id.value);
            }
            let ghost d = prev_elements_of(*tree, self.ids().take(k as int));
            let r = crate::ops::TreeNodeOps::prev_element_sibling_of(tree, &n.id);
            proof {
                assert(prev_elements_of(*tree, self.ids().take(k + 1)) == match crate::node::opt_idx(r) {
                    Some(v) => d.push(v),
                    None => d,
                });
            }
            if let Some(s) = r {
                push_unique(&mut out, s, tree);
                proof {
                    lemma_dedup_push(d, s.value);
                }
            }
            k = k + 1;
        }
        proof {
            assert(self.ids().take(k as int) =~= self.ids());
        }
        Selection { nodes: out }
    }
}

impl<'a> Selection<'a> {
    /// The child elements of the nodes, each once, in order of first appearance.
    pub fn children(&self) -> (r: Selection<'a>)
        requires
            self.nodes@.len() > 0 ==> self.in_tree(*self.nodes@[0].tree) && self.nodes@[0].tree.wf(),
        ensures
            self.nodes@.len() == 0 ==> r.nodes@.len() == 0,
            self.nodes@.len() > 0 ==> ref_ids(r.nodes@) == dedup_ids(
                gathered(self.ids(), |x: usize| child_elements(*self.nodes@[0].tree, x)),
            ),
    {
        let mut out: Vec<NodeRef<'a>> = Vec::new();
        if self.nodes.len() == 0 {
            return Selection { nodes: out };
        }
        let tree = self.nodes[0].tree;
        let ghost f = |x: usize| child_elements(*tree, x);
        let mut k: usize = 0;
        proof {
            assert(gathered(self.ids().take(0), f) =~= Seq::<usize>::empty());
            assert(dedup_ids(Seq::<usize>::empty()) =~= Seq::<usize>::empty());
        }
        while k < self.nodes.len()
            invariant
                k <= self.nodes@.len(),
                self.in_tree(*tree),
                tree.wf(),
                f == (|x: usize| child_elements(*tree, x)),
                ref_ids(out@) == dedup_ids(gathered(self.ids().take(k as int), f)),
                forall|j: int| 0 <= j < out@.len() ==> *(#[trigger] out@[j]).tree == *tree,
            decreases self.nodes.len() - k,
        {
            let n = &self.nodes[k];
            proof {
                assert(self.ids().take(k + 1).drop_last() =~= self.ids().take(k as int));
                assert(self.ids().take(k + 1).last() == n.id.value);
            }
            let cids = tree.child_ids_of(&n.id);
            extend_elements(&mut out, tree, &cids, Ghost(gathered(self.ids().take(k as int), f)));
            k = k + 1;
        }
        proof {
            assert(self.ids().take(k as int) =~= self.ids());
        }
        Selection { nodes: out }
    }

    /// The ancestor elements of the nodes, each once, in order of first appearance;
    /// with `max_depth` `Some(d)`, `d > 0`, only the nearest `d` ancestors of each node count.
    pub fn ancestors(&self, max_depth: Option<usize>) -> (r: Selection<'a>)
        requires
            self.nodes@.len() > 0 ==> self.in_tree(*self.nodes@[0].tree) && self.nodes@[0].tree.wf(),
        ensures
            self.nodes@.len() == 0 ==> r.nodes@.len() == 0,
            self.nodes@.len() > 0 ==> ref_ids(r.nodes@) == dedup_ids(
                gathered(self.ids(), |x: usize| ancestor_elements(*self.nodes@[0].tree, x, max_depth)),
            ),
    {
        let mut out: Vec<NodeRef<'a>> = Vec::new();
        if self.nodes.len() == 0 {
            return Selection { nodes: out };
        }
        let tree = self.nodes[0].tree;
        let ghost f = |x: usize| ancestor_elements(*tree, x, max_depth);
        let mut k: usize = 0;
        proof {
            assert(gathered(self.ids().take(0), f) =~= Seq::<usize>::empty());
            assert(dedup_ids(Seq::<usize>::empty()) =~= Seq::<usize>::empty());
        }
        while k < self.nodes.len()
            invariant
                k <= self.nodes@.len(),
                self.in_tree(*tree),
                tree.wf(),
                f == (|x: usize| ancestor_elements(*tree, x, max_depth)),
                ref_ids(out@) == dedup_ids(gathered(self.ids().take(k as int), f)),
                forall|j: int| 0 <= j < out@.len() ==> *(#[trigger] out@[j]).tree == *tree,
            decreases self.nodes.len() - k,
        {
            let n = &self.nodes[k];
            proof {
                assert(self.ids().take(k + 1).drop_last() =~= self.ids().take(k as int));
                assert(self.ids().take(k + 1).last() == n.id.value);
            }
            let aids = tree.ancestor_ids_of(&n.id, max_depth);
            extend_elements(&mut out, tree, &aids, Ghost(gathered(self.ids().take(k as int), f)));
            k = k + 1;
        }
        proof {
            assert(self.ids().take(k as int) =~= self.ids());
        }
        Selection { nodes: out }
    }

    /// A cursor over the nodes, each as a selection of its own.
    pub fn iter(&self) -> (r: Selections<'a>)
        ensures
            r.items@ == self.nodes@,
            r.front == 0,
            r.back == self.nodes@.len(),
    {
        let mut items: Vec<NodeRef<'a>> = Vec::new();
        let mut k: usize = 0;
        while k < self.nodes.len()
            invariant
                k <= self.nodes@.len(),
                items@ == self.nodes@.take(k as int),
            decreases self.nodes.len() - k,
        {
            let n = &self.nodes[k];
            items.push(NodeRef::new(n.id, n.tree));
            k = k + 1;
            proof {
                assert(items@ =~= self.nodes@.take(k as int));
            }
        }
        proof {
            assert(self.nodes@.take(k as int) =~= self.nodes@);
        }
        Selections { items, front: 0, back: k }
    }
}

/// The nodes of a selection, handed out one by one from either end, each as a
/// selection of its own.
pub struct Selections<'a> {
    pub items: Vec<NodeRef<'a>>,
    pub front: usize,
    pub back: usize,
}

impl<'a> Selections<'a> {
    /// The cursor is consistent: `front <= back <= items.len()`.
    pub open spec fn wf(&self) -> bool {
        self.front <= self.back <= self.items@.len()
    }

    /// The node at the front, if any is left.
    pub fn next(&mut self) -> (r: Option<Selection<'a>>)
        requires
            old(self).wf(),
        ensures
            final(self).wf(),
            final(self).items == old(self).items,
            final(self).back == old(self).back,
            match r {
                Some(s) => old(self).front < old(self).back && s.nodes@ == seq![old(self).items@[old(self).front as int]]
                    && final(self).front == old(self).front + 1,
                None => old(self).front == old(self).back && final(self).front == old(self).front,
            },
    {
        if self.front < self.back {
            let n = &self.items[self.front];
            let s = Selection { nodes: vec![NodeRef::new(n.id, n.tree)] };
            self.front = self.front + 1;
            Some(s)
        } else {
            None
        }
    }

    /// The node at the back, if any is left.
    pub fn next_back(&mut self) -> (r: Option<Selection<'a>>)
        requires
            old(self).wf(),
        ensures
            final(self).wf(),
            final(self).items == old(self).items,
            final(self).front == old(self).front,
            match r {
                Some(s) => old(self).front < old(self).back && s.nodes@ == seq![old(self).items@[old(self).back - 1]]
                    && final(self).back == old(self).back - 1,
                None => old(self).front == old(self).back && final(self).back == old(self).back,
            },
    {
        if self.front < self.back {
            self.back = self.back - 1;
            let n = &self.items[self.back];
            Some(Selection { nodes: vec![NodeRef::new(n.id, n.tree)] })
        } else {
            None
        }
    }
}

} // verus!
