//! Walks down the tree: children, subtrees in document order, and the text they hold.
use vstd::prelude::*;
use crate::node::{NodeId, NodeData};
use crate::tree::{Tree, node_ok, member_ok};
use crate::ops::{TreeNodeOps, detached};
use crate::query::ids_of;
use crate::reparent::lemma_children_are_childs;
use crate::text::{chars_of, push_char, is_ws, is_whitespace};

verus! {

/// The nodes of the subtree of `x` in document order, `x` first, going at most
/// `fuel` levels down. Every walk below starts with the number of nodes of the
/// tree as its budget, which no chain of descendants can use up.
pub open spec fn preorder(t: Tree, x: usize, fuel: nat) -> Seq<usize>
    decreases fuel, 0int,
{
    if fuel == 0 {
        seq![x]
    } else {
        let cs = t.children(x as int);
        seq![x] + forest(t, cs, cs.len() as int, (fuel - 1) as nat)
    }
}

/// The subtrees of the first `k` nodes of `cs`, one after the other.
pub open spec fn forest(t: Tree, cs: Seq<usize>, k: int, fuel: nat) -> Seq<usize>
    decreases fuel, k,
{
    if k <= 0 {
        Seq::empty()
    } else {
        forest(t, cs, k - 1, fuel) + preorder(t, cs[k - 1], fuel)
    }
}

/// The subtree of `x`, in document order, `x` first.
pub open spec fn subtree(t: Tree, x: usize) -> Seq<usize> {
    preorder(t, x, t.len())
}

/// The contents of a text node; nothing for other nodes.
pub open spec fn text_contents(d: NodeData) -> Seq<char> {
    match d {
        NodeData::Text { contents } => contents@,
        _ => Seq::empty(),
    }
}

/// The contents of the text nodes among `ids`, one after the other.
pub open spec fn texts(t: Tree, ids: Seq<usize>) -> Seq<char>
    decreases ids.len(),
{
    if ids.len() == 0 {
        Seq::empty()
    } else {
        texts(t, ids.drop_last()) + text_contents(t.data(ids.last() as int))
    }
}

pub proof fn lemma_texts_append(t: Tree, a: Seq<usize>, b: Seq<usize>)
    ensures
        texts(t, a + b) == texts(t, a) + texts(t, b),
    decreases b.len(),
{
    if b.len() == 0 {
        assert(a + b =~= a);
        assert(texts(t, a) + texts(t, b) =~= texts(t, a));
    } else {
        lemma_texts_append(t, a, b.drop_last());
        assert((a + b).drop_last() =~= a + b.drop_last());
        assert(texts(t, a) + texts(t, b) =~= texts(t, a) + texts(t, b.drop_last()) + text_contents(t.data(b.last() as int)));
    }
}

/// The ids of the children of node `x` of a tree, in order.
pub fn child_ids(tree: &Tree, x: usize) -> (r: Vec<NodeId>)
    requires
        tree.wf(),
        x < tree.len(),
    ensures
        ids_of(r@) == tree.children(x as int),
        forall|j: int| 0 <= j < r@.len() ==> (#[trigger] r@[j]).value < tree.len(),
{
    let ghost s = tree.children(x as int);
    let ghost n = tree.nodes@;
    proof {
        lemma_children_are_childs(n, tree.chains@, tree.pos@, tree.depth@, x as int);
        assert(node_ok(n, tree.chains@, tree.pos@, tree.depth@, x as int));
        if let Some(f) = crate::tree::fst(n, x as int) {
            assert(node_ok(n, tree.chains@, tree.pos@, tree.depth@, f as int));
            assert(member_ok(n.len(), tree.chains@, tree.pos@, f as int, 0));
        }
    }
    let mut out: Vec<NodeId> = Vec::new();
    let mut next_child_id = tree.nodes[x].first_child;
    let ghost mut k: int = 0;
    while next_child_id.is_some()
        invariant
            tree.wf(),
            0 <= k <= s.len(),
            s == tree.children(x as int),
            x < n.len(),
            forall|i: int| #![trigger s[i]] 0 <= i < s.len() ==> s[i] < n.len() && tree.chains@[s[i] as int] == s && tree.pos@[s[i] as int] == i,
            n == tree.nodes@,
            next_child_id == crate::attach::to_id(crate::attach::at(s, k)),
            ids_of(out@) == s.take(k),
            forall|j: int| 0 <= j < out@.len() ==> (#[trigger] out@[j]).value < n.len(),
        decreases s.len() - k,
    {
        let cid = next_child_id.unwrap();
        proof {
            assert(cid.value == s[k]);
            assert(node_ok(n, tree.chains@, tree.pos@, tree.depth@, cid.value as int));
        }
        let ghost before = out@;
        out.push(cid);
        next_child_id = tree.nodes[cid.value].next_sibling;
        proof {
            assert(ids_of(out@) =~= ids_of(before).push(cid.value));
            k = k + 1;
            assert(ids_of(out@) =~= s.take(k));
        }
    }
    proof {
        assert(s.take(k) =~= s);
    }
    out
}

fn push_preorder(tree: &Tree, x: usize, fuel: usize, out: &mut Vec<NodeId>)
    requires
        tree.wf(),
        x < tree.len(),
        forall|j: int| 0 <= j < old(out)@.len() ==> (#[trigger] old(out)@[j]).value < tree.len(),
    ensures
        ids_of(final(out)@) == ids_of(old(out)@) + preorder(*tree, x, fuel as nat),
        forall|j: int| 0 <= j < final(out)@.len() ==> (#[trigger] final(out)@[j]).value < tree.len(),
    decreases fuel,
{
    let ghost start = ids_of(out@);
    out.push(NodeId::new(x));
    proof {
        assert(ids_of(out@) =~= start + seq![x]);
    }
    if fuel == 0 {
        return;
    }
    let cs = child_ids(tree, x);
    let ghost s = tree.children(x as int);
    let mut k: usize = 0;
    while k < cs.len()
        invariant
            tree.wf(),
            fuel > 0,
            k <= cs.len(),
            ids_of(cs@) == s,
            s == tree.children(x as int),
            forall|j: int| 0 <= j < cs@.len() ==> (#[trigger] cs@[j]).value < tree.len(),
            ids_of(out@) == start + seq![x] + forest(*tree, s, k as int, (fuel - 1) as nat),
            forall|j: int| 0 <= j < out@.len() ==> (#[trigger] out@[j]).value < tree.len(),
        decreases cs.len() - k,
    {
        let c = cs[k].value;
        proof {
            assert(c == s[k as int]);
        }
        push_preorder(tree, c, fuel - 1, out);
        k = k + 1;
        proof {
            assert(ids_of(out@) =~= start + seq![x] + forest(*tree, s, k as int, (fuel - 1) as nat));
        }
    }
    proof {
        assert(start + seq![x] + forest(*tree, s, s.len() as int, (fuel - 1) as nat) =~= start + preorder(*tree, x, fuel as nat));
    }
}

/// The nodes of the subtree of `x`, `x` first, in document order.
pub fn subtree_ids(tree: &Tree, x: usize) -> (r: Vec<NodeId>)
    requires
        tree.wf(),
        x < tree.len(),
    ensures
        ids_of(r@) == subtree(*tree, x),
        forall|j: int| 0 <= j < r@.len() ==> (#[trigger] r@[j]).value < tree.len(),
{
    let mut out: Vec<NodeId> = Vec::new();
    push_preorder(tree, x, tree.nodes.len(), &mut out);
    proof {
        assert(ids_of(out@) =~= subtree(*tree, x));
    }
    out
}

/// The contents of the text nodes among `ids`, one after the other.
fn texts_of_ids(tree: &Tree, ids: &Vec<NodeId>) -> (r: String)
    requires
        tree.wf(),
        forall|j: int| 0 <= j < ids@.len() ==> (#[trigger] ids@[j]).value < tree.len(),
    ensures
        r@ == texts(*tree, ids_of(ids@)),
{
    let mut out = String::new();
    let mut i: usize = 0;
    while i < ids.len()
        invariant
            i <= ids.len(),
            forall|j: int| 0 <= j < ids@.len() ==> (#[trigger] ids@[j]).value < tree.len(),
            out@ == texts(*tree, ids_of(ids@).take(i as int)),
        decreases ids.len() - i,
    {
        let x = ids[i].value;
        if let NodeData::Text { contents } = &tree.nodes[x].data {
            crate::text::push_str(&mut out, contents.as_str());
        }
        i = i + 1;
        proof {
            assert(ids_of(ids@).take(i as int).drop_last() =~= ids_of(ids@).take(i - 1));
        }
    }
    proof {
        assert(ids_of(ids@).take(ids.len() as int) =~= ids_of(ids@));
    }
    out
}

impl TreeNodeOps {
    /// The ids of the children of a node, in order; none for an id out of the tree.
    pub fn child_ids_of(tree: &Tree, id: &NodeId) -> (r: Vec<NodeId>)
        requires
            tree.wf(),
        ensures
            ids_of(r@) == (if tree.valid(id.value as int) { tree.children(id.value as int) } else { Seq::empty() }),
    {
        if id.value < tree.nodes.len() {
            child_ids(tree, id.value)
        } else {
            Vec::new()
        }
    }

    /// The ids of the descendants of a node in document order, the node itself excluded.
    pub fn descendant_ids_of(tree: &Tree, id: &NodeId) -> (r: Vec<NodeId>)
        requires
            tree.wf(),
        ensures
            ids_of(r@) == (if tree.valid(id.value as int) { subtree(*tree, id.value).drop_first() } else { Seq::empty() }),
    {
        if id.value >= tree.nodes.len() {
            return Vec::new();
        }
        let all = subtree_ids(tree, id.value);
        let mut out: Vec<NodeId> = Vec::new();
        let mut i: usize = 1;
        proof {
            assert(ids_of(all@).len() >= 1);
        }
        while i < all.len()
            invariant
                1 <= i <= all.len(),
                ids_of(out@) == ids_of(all@).subrange(1, i as int),
            decreases all.len() - i,
        {
            let ghost before = out@;
            out.push(all[i]);
            i = i + 1;
            proof {
                assert(ids_of(out@) =~= ids_of(before).push(all@[i - 1].value));
                assert(ids_of(out@) =~= ids_of(all@).subrange(1, i as int));
            }
        }
        proof {
            assert(ids_of(all@).subrange(1, all.len() as int) =~= ids_of(all@).drop_first());
        }
        out
    }

    /// The text of a node and its descendants: the contents of the text nodes of its
    /// subtree, in document order. Nothing for an id out of the tree.
    pub fn text_of(tree: &Tree, id: NodeId) -> (r: String)
        requires
            tree.wf(),
        ensures
            r@ == (if tree.valid(id.value as int) { texts(*tree, subtree(*tree, id.value)) } else { Seq::empty() }),
    {
        if id.value >= tree.nodes.len() {
            return String::new();
        }
        let all = subtree_ids(tree, id.value);
        texts_of_ids(tree, &all)
    }

    /// The text of a node without its descendants: the contents of its text children.
    pub fn immediate_text_of(tree: &Tree, id: NodeId) -> (r: String)
        requires
            tree.wf(),
        ensures
            r@ == (if tree.valid(id.value as int) { texts(*tree, tree.children(id.value as int)) } else { Seq::empty() }),
    {
        if id.value >= tree.nodes.len() {
            return String::new();
        }
        let cs = child_ids(tree, id.value);
        texts_of_ids(tree, &cs)
    }
}

// ---------------------------------------------------------------------------
// Normalized character counts
// ---------------------------------------------------------------------------

/// The number of characters of `s` once each run of whitespace counts as one,
/// where `start` says whether whitespace came right before `s`.
pub open spec fn norm_count(s: Seq<char>, start: bool) -> int
    decreases s.len(),
{
    if s.len() == 0 {
        0
    } else {
        let prev = if s.len() == 1 { start } else { is_ws(s[s.len() - 2]) };
        norm_count(s.drop_last(), start) + (if prev && is_ws(s.last()) { 0int } else { 1int })
    }
}

proof fn lemma_norm_count_bound(s: Seq<char>, start: bool)
    ensures
        0 <= norm_count(s, start) <= s.len(),
    decreases s.len(),
{
    if s.len() > 0 {
        lemma_norm_count_bound(s.drop_last(), start);
    }
}

/// `s` ends with a whitespace character.
pub open spec fn ends_ws(s: Seq<char>) -> bool {
    s.len() > 0 && is_ws(s.last())
}

/// Counts the characters of `text` with each run of whitespace counted as one;
/// `start_whitespace` says whether whitespace came right before it.
pub fn normalized_char_count(text: &str, start_whitespace: bool) -> (r: usize)
    ensures
        r == norm_count(text@, start_whitespace),
{
    let v = chars_of(text);
    let mut count: usize = 0;
    let mut prev_ws = start_whitespace;
    let mut i: usize = 0;
    while i < v.len()
        invariant
            i <= v.len(),
            v@ == text@,
            count == norm_count(v@.take(i as int), start_whitespace),
            count <= i,
            prev_ws == (if i == 0 { start_whitespace } else { is_ws(v@[i - 1]) }),
        decreases v.len() - i,
    {
        let w = is_whitespace(v[i]);
        if !(prev_ws && w) {
            count = count + 1;
        }
        prev_ws = w;
        i = i + 1;
        proof {
            let p = v@.take(i as int);
            assert(p.drop_last() =~= v@.take(i - 1));
            if i >= 2 {
                assert(p[p.len() - 2] == v@[i - 2]);
            }
        }
    }
    proof {
        assert(v@.take(v.len() as int) =~= v@);
    }
    count
}

/// The running count over the text nodes among `ids`, and whether the text so far
/// ends with whitespace (it does at the start; an empty text node leaves that as it was).
pub open spec fn norm_fold(t: Tree, ids: Seq<usize>) -> (int, bool)
    decreases ids.len(),
{
    if ids.len() == 0 {
        (0, true)
    } else {
        let (c, w) = norm_fold(t, ids.drop_last());
        match t.data(ids.last() as int) {
            NodeData::Text { contents } => (c + norm_count(contents@, w), if contents@.len() == 0 { w } else { ends_ws(contents@) }),
            _ => (c, w),
        }
    }
}

/// The normalized count of a subtree: runs of whitespace count as one, and a
/// final run of whitespace does not count.
pub open spec fn norm_total(t: Tree, ids: Seq<usize>) -> int {
    let (c, w) = norm_fold(t, ids);
    if w && c > 0 { c - 1 } else { c }
}

proof fn lemma_norm_fold_bound(t: Tree, ids: Seq<usize>)
    ensures
        0 <= norm_fold(t, ids).0 <= texts(t, ids).len(),
    decreases ids.len(),
{
    if ids.len() > 0 {
        lemma_norm_fold_bound(t, ids.drop_last());
        if let NodeData::Text { contents } = t.data(ids.last() as int) {
            lemma_norm_count_bound(contents@, norm_fold(t, ids.drop_last()).1);
        }
    }
}

proof fn lemma_texts_prefix(t: Tree, ids: Seq<usize>, i: int)
    requires
        0 <= i <= ids.len(),
    ensures
        texts(t, ids.take(i)).len() <= texts(t, ids).len(),
{
    lemma_texts_append(t, ids.take(i), ids.skip(i));
    assert(ids.take(i) + ids.skip(i) =~= ids);
}

impl TreeNodeOps {
    /// The number of characters of the text of a node and its descendants, each run
    /// of whitespace counted as one and a final run of whitespace not counted.
    pub fn normalized_char_count(tree: &Tree, id: NodeId) -> (r: usize)
        requires
            tree.wf(),
            tree.valid(id.value as int) ==> texts(*tree, subtree(*tree, id.value)).len() <= usize::MAX,
        ensures
            r == (if tree.valid(id.value as int) { norm_total(*tree, subtree(*tree, id.value)) } else { 0 }),
    {
        if id.value >= tree.nodes.len() {
            return 0;
        }
        let all = subtree_ids(tree, id.value);
        let ghost ids = ids_of(all@);
        let mut c: usize = 0;
        let mut last_ws = true;
        let mut i: usize = 0;
        while i < all.len()
            invariant
                i <= all.len(),
                ids == ids_of(all@),
                forall|j: int| 0 <= j < all@.len() ==> (#[trigger] all@[j]).value < tree.len(),
                texts(*tree, ids).len() <= usize::MAX,
                (c as int, last_ws) == norm_fold(*tree, ids.take(i as int)),
            decreases all.len() - i,
        {
            let x = all[i].value;
            proof {
                assert(ids.take(i + 1).drop_last() =~= ids.take(i as int));
                lemma_norm_fold_bound(*tree, ids.take(i + 1));
                lemma_texts_prefix(*tree, ids, i + 1);
            }
            if let NodeData::Text { contents } = &tree.nodes[x].data {
                let k = normalized_char_count(contents.as_str(), last_ws);
                c = c + k;
                let cv = chars_of(contents.as_str());
                if cv.len() > 0 {
                    last_ws = is_whitespace(cv[cv.len() - 1]);
                }
            }
            i = i + 1;
        }
        proof {
            assert(ids.take(all.len() as int) =~= ids);
        }
        if last_ws && c > 0 {
            c = c - 1;
        }
        c
    }
}

// ---------------------------------------------------------------------------
// The text that a node handler collects
// ---------------------------------------------------------------------------

/// The text below node `x` as the handler collects it: text nodes give their
/// contents; documents, fragments and elements give the text of their children;
/// other nodes give nothing.
pub open spec fn handler_text(t: Tree, x: usize, fuel: nat) -> Seq<char>
    decreases fuel, 0int,
{
    match t.data(x as int) {
        NodeData::Text { contents } => contents@,
        NodeData::Document | NodeData::Fragment | NodeData::Element(_) => if fuel == 0 {
            Seq::empty()
        } else {
            let cs = t.children(x as int);
            handler_forest(t, cs, cs.len() as int, (fuel - 1) as nat)
        },
        _ => Seq::empty(),
    }
}

pub open spec fn handler_forest(t: Tree, cs: Seq<usize>, k: int, fuel: nat) -> Seq<char>
    decreases fuel, k,
{
    if k <= 0 {
        Seq::empty()
    } else {
        handler_forest(t, cs, k - 1, fuel) + handler_text(t, cs[k - 1], fuel)
    }
}

/// Operations on tree nodes that the document handler uses.
pub struct TreeNodeHandler {}

fn push_handler_text(tree: &Tree, x: usize, fuel: usize, out: &mut String)
    requires
        tree.wf(),
        x < tree.len(),
    ensures
        final(out)@ == old(out)@ + handler_text(*tree, x, fuel as nat),
    decreases fuel,
{
    match &tree.nodes[x].data {
        NodeData::Text { contents } => {
            crate::text::push_str(out, contents.as_str());
        },
        NodeData::Document | NodeData::Fragment | NodeData::Element(_) => {
            if fuel == 0 {
                proof {
                    assert(old(out)@ + handler_text(*tree, x, fuel as nat) =~= old(out)@);
                }
                return;
            }
            let cs = child_ids(tree, x);
            let ghost s = tree.children(x as int);
            let ghost start = out@;
            let mut k: usize = 0;
            proof {
                assert(out@ =~= start + handler_forest(*tree, s, 0, (fuel - 1) as nat));
            }
            while k < cs.len()
                invariant
                    tree.wf(),
                    fuel > 0,
                    k <= cs.len(),
                    ids_of(cs@) == s,
                    forall|j: int| 0 <= j < cs@.len() ==> (#[trigger] cs@[j]).value < tree.len(),
                    out@ == start + handler_forest(*tree, s, k as int, (fuel - 1) as nat),
                decreases cs.len() - k,
            {
                let c = cs[k].value;
                proof {
                    assert(c == s[k as int]);
                }
                push_handler_text(tree, c, fuel - 1, out);
                k = k + 1;
                proof {
                    assert(out@ =~= start + handler_forest(*tree, s, k as int, (fuel - 1) as nat));
                }
            }
        },
        _ => {
            proof {
                assert(old(out)@ + handler_text(*tree, x, fuel as nat) =~= old(out)@);
            }
        },
    }
}

impl TreeNodeHandler {
    /// The text of a node: the contents of the text nodes below it, reached through
    /// documents, fragments and elements only. Nothing for an id out of the tree.
    pub fn text_of(id: NodeId, tree: &Tree) -> (r: String)
        requires
            tree.wf(),
        ensures
            r@ == (if tree.valid(id.value as int) { handler_text(*tree, id.value, tree.len()) } else { Seq::empty() }),
    {
        let mut out = String::new();
        if id.value < tree.nodes.len() {
            push_handler_text(tree, id.value, tree.nodes.len(), &mut out);
        }
        out
    }

    /// Removes a node from its parent and siblings. The node remains in the tree,
    /// so it can be attached somewhere else afterwards.
    pub fn remove_from_parent(id: &NodeId, tree: &mut Tree)
        requires
            old(tree).wf(),
        ensures
            final(tree).wf(),
            !old(tree).valid(id.value as int) ==> *final(tree) == *old(tree),
            old(tree).valid(id.value as int) ==> detached(*old(tree), *final(tree), id.value as int),
    {
        TreeNodeOps::remove_from_parent(tree, id)
    }
}

} // verus!
