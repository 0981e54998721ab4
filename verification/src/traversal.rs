//! Walks down the tree by element names.
use vstd::prelude::*;
use crate::node::{NodeId, NodeData, TreeNode};
use crate::tree::Tree;
use crate::query::ids_of;
use crate::subtree::child_ids;
use crate::minisel::{MiniSelector, Combinator, SelModel};
use crate::minimatch::{node_matches, step, collect};

verus! {

/// Element searches by name.
pub struct Traversal {}

/// The selector that tests an element's name only.
pub open spec fn name_model(name: Seq<char>) -> SelModel {
    SelModel { name: Some(name), id: None, classes: None, attrs: None, combinator: Combinator::Descendant }
}

/// The first node of `s` that matches `m`.
pub open spec fn first_match(t: Tree, s: Seq<usize>, m: SelModel) -> Option<usize>
    decreases s.len(),
{
    if s.len() == 0 {
        None
    } else if node_matches(m, t.node(s[0] as int)) {
        Some(s[0])
    } else {
        first_match(t, s.drop_first(), m)
    }
}

/// Following the names of `path` child by child from `x`: the first element child
/// with the next name each time.
pub open spec fn follow_path(t: Tree, x: usize, path: Seq<Seq<char>>) -> Option<usize>
    decreases path.len(),
{
    if path.len() == 0 {
        Some(x)
    } else {
        match follow_path(t, x, path.drop_last()) {
            Some(y) => if 0 <= y < t.len() { first_match(t, t.children(y as int), name_model(path.last())) } else { None },
            None => None,
        }
    }
}

/// The elements reached from `x` by the names of `path[..k]`, each found among the
/// descendants of the ones before (below a match only for the last name).
pub open spec fn names_path(t: Tree, x: usize, path: Seq<Seq<char>>, k: int) -> Seq<usize>
    decreases k,
{
    if k <= 0 {
        seq![x]
    } else {
        step(t, names_path(t, x, path, k - 1), name_model(path[k - 1]), Combinator::Descendant, k == path.len())
    }
}

fn name_selector(name: &str) -> (r: MiniSelector)
    ensures
        r.model() == name_model(name@),
{
    let mut n = String::new();
    crate::text::push_str(&mut n, name);
    MiniSelector { name: Some(n), id: None, classes: None, attrs: None, combinator: Combinator::Descendant }
}

pub open spec fn str_views(v: Seq<&str>) -> Seq<Seq<char>> {
    v.map_values(|s: &str| s@)
}

impl Traversal {
    /// The first element child of node `id` for which `f` says yes. Every element child
    /// before it was asked and said no; `None` when each one said no, or when `id` is
    /// not in the tree.
    pub fn find_child_element<F>(tree: &Tree, id: NodeId, f: F) -> (r: Option<NodeId>)
        where
            F: Fn(&TreeNode) -> bool,
        requires
            tree.wf(),
            tree.valid(id.value as int) ==> forall|j: int| 0 <= j < tree.children(id.value as int).len()
                ==> f.requires((&tree.nodes@[#[trigger] tree.children(id.value as int)[j] as int],)),
        ensures
            !tree.valid(id.value as int) ==> r is None,
            tree.valid(id.value as int) ==> {
                let cs = tree.children(id.value as int);
                match r {
                    Some(c) => exists|k: int| {
                        &&& 0 <= k < cs.len()
                        &&& #[trigger] cs[k] == c.value
                        &&& tree.nodes@[c.value as int].data is Element
                        &&& f.ensures((&tree.nodes@[c.value as int],), true)
                        &&& forall|j: int| 0 <= j < k && (tree.nodes@[cs[j] as int].data is Element)
                            ==> f.ensures((&tree.nodes@[#[trigger] cs[j] as int],), false)
                    },
                    None => forall|j: int| 0 <= j < cs.len() && (tree.nodes@[cs[j] as int].data is Element)
                        ==> f.ensures((&tree.nodes@[#[trigger] cs[j] as int],), false),
                }
            },
    {
        if id.value >= tree.nodes.len() {
            return None;
        }
        let cs = child_ids(tree, id.value);
        let ghost s = tree.children(id.value as int);
        let mut i: usize = 0;
        while i < cs.len()
            invariant
                tree.wf(),
                i <= cs.len(),
                ids_of(cs@) == s,
                s == tree.children(id.value as int),
                id.value < tree.len(),
                forall|j: int| 0 <= j < cs@.len() ==> (#[trigger] cs@[j]).value < tree.len(),
                forall|j: int| 0 <= j < s.len() ==> f.requires((&tree.nodes@[#[trigger] s[j] as int],)),
                forall|j: int| 0 <= j < i && (tree.nodes@[s[j] as int].data is Element)
                    ==> f.ensures((&tree.nodes@[#[trigger] s[j] as int],), false),
            decreases cs.len() - i,
        {
            let c = cs[i];
            proof {
                assert(s[i as int] == c.value);
            }
            if tree.nodes[c.value].is_element() {
                let yes = f(&tree.nodes[c.value]);
                if yes {
                    proof {
                        assert(s[i as int] == c.value);
                    }
                    return Some(c);
                }
            }
            i = i + 1;
        }
        None
    }

    /// The first element child of node `id` named `name`.
    pub fn find_child_element_by_name(tree: &Tree, id: NodeId, name: &str) -> (r: Option<NodeId>)
        requires
            tree.wf(),
        ensures
            crate::node::opt_idx(r) == (if tree.valid(id.value as int) { first_match(*tree, tree.children(id.value as int), name_model(name@)) } else { None }),
            r matches Some(y) ==> y.value < tree.len(),
    {
        if id.value >= tree.nodes.len() {
            return None;
        }
        let sel = name_selector(name);
        let cs = child_ids(tree, id.value);
        let ghost s = tree.children(id.value as int);
        let ghost m = name_model(name@);
        let mut i: usize = 0;
        proof {
            assert(s.skip(0) =~= s);
        }
        while i < cs.len()
            invariant
                tree.wf(),
                i <= cs.len(),
                ids_of(cs@) == s,
                s == tree.children(id.value as int),
                m == name_model(name@),
                id.value < tree.len(),
                sel.model() == m,
                forall|j: int| 0 <= j < cs@.len() ==> (#[trigger] cs@[j]).value < tree.len(),
                first_match(*tree, s, m) == first_match(*tree, s.skip(i as int), m),
            decreases cs.len() - i,
        {
            let c = cs[i];
            proof {
                assert(s.skip(i as int)[0] == c.value);
                assert(s.skip(i as int).drop_first() =~= s.skip(i + 1));
            }
            if sel.match_tree_node(&tree.nodes[c.value]) {
                proof {
                    assert(s.skip(i as int).len() > 0);
                }
                return Some(c);
            }
            i = i + 1;
        }
        proof {
            assert(s.skip(i as int).len() == 0);
        }
        None
    }

    /// The element reached from node `id` by following the names of `path`, child by
    /// child; `id` itself for an empty path.
    pub fn find_descendant_element(tree: &Tree, id: NodeId, path: &[&str]) -> (r: Option<NodeId>)
        requires
            tree.wf(),
        ensures
            crate::node::opt_idx(r) == (if tree.valid(id.value as int) { follow_path(*tree, id.value, str_views(path@)) } else { None }),
    {
        if id.value >= tree.nodes.len() {
            return None;
        }
        let ghost p = str_views(path@);
        let mut cur = id;
        let mut i: usize = 0;
        while i < path.len()
            invariant
                tree.wf(),
                i <= path.len(),
                p == str_views(path@),
                cur.value < tree.len(),
                follow_path(*tree, id.value, p.take(i as int)) == Some(cur.value),
            decreases path.len() - i,
        {
            proof {
                assert(p.take(i + 1).drop_last() =~= p.take(i as int));
                assert(p.take(i + 1).last() == path@[i as int]@);
            }
            match Self::find_child_element_by_name(tree, cur, path[i]) {
                Some(next) => {
                    cur = next;
                },
                None => {
                    proof {
                        lemma_follow_none(*tree, id.value, p, i as int + 1);
                    }
                    return None;
                },
            }
            i = i + 1;
        }
        proof {
            assert(p.take(path.len() as int) =~= p);
        }
        Some(cur)
    }

    /// The elements reached from node `id` by the names of `path`, each searched for
    /// among the descendants of the ones before. Experimental: the form of `path` may change.
    pub fn find_descendant_elements(tree: &Tree, id: NodeId, path: &[&str]) -> (r: Vec<NodeId>)
        requires
            tree.wf(),
            tree.valid(id.value as int),
        ensures
            ids_of(r@) == names_path(*tree, id.value, str_views(path@), path@.len() as int),
    {
        let ghost p = str_views(path@);
        let mut stack: Vec<NodeId> = Vec::new();
        stack.push(id);
        proof {
            assert(ids_of(stack@) =~= seq![id.value]);
        }
        let mut idx: usize = 0;
        while idx < path.len()
            invariant
                tree.wf(),
                idx <= path.len(),
                p == str_views(path@),
                ids_of(stack@) == names_path(*tree, id.value, p, idx as int),
                forall|j: int| 0 <= j < stack@.len() ==> (#[trigger] stack@[j]).value < tree.len(),
            decreases path.len() - idx,
        {
            let last = path.len() - 1 == idx;
            let sel = name_selector(path[idx]);
            proof {
                assert(p[idx as int] == path@[idx as int]@);
            }
            stack = crate::minimatch::step_names(tree, &stack, &sel, last);
            idx = idx + 1;
        }
        stack
    }
}

proof fn lemma_follow_none(t: Tree, x: usize, p: Seq<Seq<char>>, k: int)
    requires
        0 < k <= p.len(),
        follow_path(t, x, p.take(k)) is None,
    ensures
        follow_path(t, x, p) is None,
    decreases p.len() - k,
{
    if k < p.len() {
        assert(p.take(k + 1).drop_last() =~= p.take(k));
        lemma_follow_none(t, x, p, k + 1);
    } else {
        assert(p.take(k) =~= p);
    }
}

} // verus!
