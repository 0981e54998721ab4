//! Checking the links of an arena of nodes: a parentless root, consistent parent,
//! child and sibling links, references into the arena, and no cycles.
use vstd::prelude::*;
use crate::node::{NodeId, TreeNode, opt_idx};
use crate::tree::{Tree, wf_parts, node_ok, par, prv, nxt, fst, lst};
use crate::tree::member_ok as chain_member_ok;
use crate::query::ancestors_of;
use crate::text::push_str;
use crate::md::{decimal_string, decimal};
use crate::ops::is_id;

verus! {

/// The node that `k` steps along the next-sibling links from `f` lead to.
pub open spec fn chain_at(n: Seq<TreeNode>, f: usize, k: nat) -> Option<usize>
    decreases k,
{
    if k == 0 {
        Some(f)
    } else {
        match chain_at(n, f, (k - 1) as nat) {
            Some(c) => if c < n.len() { opt_idx(n[c as int].next_sibling) } else { None },
            None => None,
        }
    }
}

/// The node that `k` steps along the parent links from `x` lead to.
pub open spec fn parent_at(n: Seq<TreeNode>, x: usize, k: nat) -> Option<usize>
    decreases k,
{
    if k == 0 {
        Some(x)
    } else {
        match parent_at(n, x, (k - 1) as nat) {
            Some(c) => if c < n.len() { opt_idx(n[c as int].parent) } else { None },
            None => None,
        }
    }
}

/// The parent links from `x` end: a chain of parents runs out after at most
/// `n.len() + 2` steps, or never does, having gone round a cycle.
pub open spec fn parents_end(n: Seq<TreeNode>, x: usize) -> bool {
    exists|m: nat| m <= n.len() + 2 && #[trigger] parent_at(n, x, m) is None
}

/// Node `c` is a child of the node with id `id`, and its sibling links are mutual.
pub open spec fn member_ok(n: Seq<TreeNode>, c: usize, id: NodeId) -> bool {
    &&& c < n.len()
    &&& n[c as int].parent == Some(id)
    &&& (n[c as int].prev_sibling matches Some(p) ==> p.value < n.len() && n[p.value as int].next_sibling == Some(NodeId { value: c }))
    &&& (n[c as int].next_sibling matches Some(q) ==> q.value < n.len() && n[q.value as int].prev_sibling == Some(NodeId { value: c }))
}

/// The chain of siblings from `f` holds `m` nodes, each a child of `id` with mutual
/// sibling links, and ends there.
pub open spec fn chain_ok(n: Seq<TreeNode>, f: usize, id: NodeId, m: nat) -> bool {
    &&& 1 <= m <= n.len()
    &&& forall|k: nat| k < m ==> (#[trigger] chain_at(n, f, k) matches Some(c) && member_ok(n, c, id))
    &&& chain_at(n, f, m) is None
}

/// The checks of node `i`: no link to itself; a first child that points back, opens
/// a chain of children that ends at the last child; a last child that points back;
/// sibling links that point back. Every link, the parent too, stays in the arena.
pub open spec fn node_valid(n: Seq<TreeNode>, i: int) -> bool {
    let nd = n[i];
    let id = nd.id;
    &&& nd.parent != Some(id)
    &&& nd.prev_sibling != Some(id)
    &&& nd.next_sibling != Some(id)
    &&& nd.first_child != Some(id)
    &&& nd.last_child != Some(id)
    &&& (nd.parent matches Some(p) ==> p.value < n.len())
    &&& (nd.first_child matches Some(f) ==> {
        &&& f.value < n.len()
        &&& n[f.value as int].parent == Some(id)
        &&& n[f.value as int].prev_sibling is None
        &&& exists|m: nat| #[trigger] chain_ok(n, f.value, id, m) && nd.last_child == Some(NodeId { value: chain_at(n, f.value, (m - 1) as nat)->0 })
    })
    &&& (nd.last_child matches Some(l) ==> {
        &&& l.value < n.len()
        &&& n[l.value as int].parent == Some(id)
        &&& n[l.value as int].next_sibling is None
    })
    &&& (nd.prev_sibling matches Some(p) ==> p.value < n.len() && n[p.value as int].next_sibling == Some(id))
    &&& (nd.next_sibling matches Some(q) ==> q.value < n.len() && n[q.value as int].prev_sibling == Some(id))
}

/// The structure of an arena is sound: node 0 exists and has no parent, every node
/// passes its checks, and no chain of parents goes round a cycle.
pub open spec fn nodes_valid(n: Seq<TreeNode>) -> bool {
    &&& n.len() > 0
    &&& n[0].parent is None
    &&& forall|i: int| 0 <= i < n.len() ==> #[trigger] node_valid(n, i)
    &&& forall|i: int| 0 <= i < n.len() ==> #[trigger] parents_end(n, n[i].id.value)
}

// ---------------------------------------------------------------------------
// Messages
// ---------------------------------------------------------------------------

/// The message of the first check that the chain of children of the node with id
/// `id` fails, from node `cur` at step `steps` on: a child out of the arena, a child
/// with another parent, sibling links that do not point back, a chain longer than the
/// arena, or an end other than the last child.
pub open spec fn chain_error(n: Seq<TreeNode>, id: NodeId, last: Option<NodeId>, steps: nat, cur: usize) -> Option<Seq<char>>
    decreases n.len() - steps,
{
    let c = NodeId { value: cur };
    if cur >= n.len() {
        Some("Invalid child reference at node "@ + id_text(c))
    } else if n[cur as int].parent != Some(id) {
        Some("Child "@ + id_text(c) + " has incorrect parent, expected "@ + id_text(id))
    } else if n[cur as int].prev_sibling matches Some(p) && p.value >= n.len() {
        Some("Invalid prev_sibling reference at node "@ + id_text(n[cur as int].prev_sibling->0))
    } else if n[cur as int].prev_sibling matches Some(p) && n[p.value as int].next_sibling != Some(c) {
        Some("prev_sibling "@ + id_text(n[cur as int].prev_sibling->0) + " next_sibling mismatch with "@ + id_text(c))
    } else {
        match n[cur as int].next_sibling {
            Some(q) => if q.value >= n.len() {
                Some("Invalid next_sibling reference at node "@ + id_text(q))
            } else if n[q.value as int].prev_sibling != Some(c) {
                Some("next_sibling "@ + id_text(q) + " prev_sibling mismatch with "@ + id_text(c))
            } else if steps + 1 >= n.len() {
                Some("Cycle detected in sibling chain at node "@ + id_text(q))
            } else {
                chain_error(n, id, last, steps + 1, q.value)
            },
            None => if last != Some(c) {
                Some("last_child mismatch at node "@ + id_text(id) + ", expected "@ + opt_id_text(last) + ", found "@ + opt_id_text(Some(c)))
            } else {
                None
            },
        }
    }
}

/// The message of the first check of its children that node `i` fails.
pub open spec fn first_child_error(n: Seq<TreeNode>, i: int) -> Option<Seq<char>> {
    let nd = n[i];
    let id = nd.id;
    match nd.first_child {
        Some(f) => if f.value >= n.len() {
            Some("Invalid first_child "@ + id_text(f) + " reference at node "@ + id_text(id))
        } else if n[f.value as int].parent != Some(id) {
            Some("first_child's parent does not match node "@ + id_text(id))
        } else if n[f.value as int].prev_sibling is Some {
            Some("first_child "@ + id_text(f) + " of node "@ + id_text(id) + " has non-None prev_sibling"@)
        } else {
            chain_error(n, id, nd.last_child, 0, f.value)
        },
        None => None,
    }
}

/// The message of the first check of its last child and siblings that node `i` fails.
pub open spec fn link_error(n: Seq<TreeNode>, i: int) -> Option<Seq<char>> {
    let nd = n[i];
    let id = nd.id;
    if nd.last_child matches Some(l) && (l.value >= n.len() || n[l.value as int].parent != Some(id) || n[l.value as int].next_sibling is Some) {
        let l = nd.last_child->0;
        if l.value >= n.len() {
            Some("Invalid last_child reference at node "@ + id_text(id))
        } else if n[l.value as int].parent != Some(id) {
            Some("last_child's parent does not match node "@ + id_text(id))
        } else {
            Some("last_child "@ + id_text(l) + " of node "@ + id_text(id) + " has non-None next_sibling"@)
        }
    } else if nd.prev_sibling matches Some(p) && (p.value >= n.len() || n[p.value as int].next_sibling != Some(id)) {
        let p = nd.prev_sibling->0;
        if p.value >= n.len() {
            Some("Invalid prev_sibling reference at node "@ + id_text(id))
        } else {
            Some("prev_sibling "@ + id_text(p) + " does not link back to "@ + id_text(id))
        }
    } else if nd.next_sibling matches Some(q) && (q.value >= n.len() || n[q.value as int].prev_sibling != Some(id)) {
        let q = nd.next_sibling->0;
        if q.value >= n.len() {
            Some("Invalid next_sibling reference at node "@ + id_text(id))
        } else {
            Some("next_sibling "@ + id_text(q) + " does not link back to "@ + id_text(id))
        }
    } else {
        None
    }
}

/// The message of the first check that node `i` fails, in the order: links to itself,
/// a parent out of the arena, the children, the last child, the siblings.
pub open spec fn node_error(n: Seq<TreeNode>, i: int) -> Option<Seq<char>> {
    let nd = n[i];
    let id = nd.id;
    if nd.parent == Some(id) {
        Some("Node "@ + id_text(id) + " references itself as parent"@)
    } else if nd.prev_sibling == Some(id) {
        Some("Node "@ + id_text(id) + " references itself as prev_sibling"@)
    } else if nd.next_sibling == Some(id) {
        Some("Node "@ + id_text(id) + " references itself as next_sibling"@)
    } else if nd.first_child == Some(id) {
        Some("Node "@ + id_text(id) + " references itself as first_child"@)
    } else if nd.last_child == Some(id) {
        Some("Node "@ + id_text(id) + " references itself as last_child"@)
    } else if nd.parent matches Some(p) && p.value >= n.len() {
        Some("Invalid parent "@ + id_text(nd.parent->0) + " reference at node "@ + id_text(id))
    } else if first_child_error(n, i) is Some {
        first_child_error(n, i)
    } else {
        link_error(n, i)
    }
}

/// The message of the first node from `i` on that fails its checks.
pub open spec fn nodes_error(n: Seq<TreeNode>, i: int) -> Option<Seq<char>>
    decreases n.len() - i,
{
    if i < 0 || i >= n.len() {
        None
    } else if node_error(n, i) is Some {
        node_error(n, i)
    } else {
        nodes_error(n, i + 1)
    }
}

/// The chain of parents from `x` meets at step `m` a node that it met before.
pub open spec fn repeats_at(n: Seq<TreeNode>, x: usize, m: nat) -> bool {
    parent_at(n, x, m) is Some && exists|j: nat| j < m && #[trigger] parent_at(n, x, j) == parent_at(n, x, m)
}

/// The chain of parents from `x` meets no node twice in its first `m` steps.
pub open spec fn no_repeat_before(n: Seq<TreeNode>, x: usize, m: nat) -> bool {
    forall|i: nat, j: nat| i < j < m ==> #[trigger] parent_at(n, x, i) != #[trigger] parent_at(n, x, j)
}

/// The step at which the chain of parents from `x` first meets a node again.
pub open spec fn first_repeat(n: Seq<TreeNode>, x: usize) -> nat {
    choose|m: nat| repeats_at(n, x, m) && no_repeat_before(n, x, m)
}

/// The message for a chain of parents from `x` that goes round a cycle: the first
/// node that it meets a second time.
pub open spec fn parents_error(n: Seq<TreeNode>, x: usize) -> Option<Seq<char>> {
    if parents_end(n, x) {
        None
    } else {
        Some("Cycle detected in parent chain at node "@ + id_text(NodeId { value: parent_at(n, x, first_repeat(n, x))->0 }))
    }
}

/// Chains that meet at two steps go on alike.
proof fn lemma_parent_shift(n: Seq<TreeNode>, x: usize, a: nat, b: nat, d: nat)
    requires
        parent_at(n, x, a) == parent_at(n, x, b),
    ensures
        parent_at(n, x, a + d) == parent_at(n, x, b + d),
    decreases d,
{
    if d > 0 {
        lemma_parent_shift(n, x, a, b, (d - 1) as nat);
        assert(parent_at(n, x, a + d) == parent_at(n, x, (a + (d - 1)) as nat + 1));
    }
}

/// A chain that meets a node again at step `k` (first met at step `j`) never ends.
proof fn lemma_cycle_never_ends(n: Seq<TreeNode>, x: usize, j: nat, k: nat, m: nat)
    requires
        j < k,
        parent_at(n, x, j) == parent_at(n, x, k),
        forall|i: nat| i <= k ==> #[trigger] parent_at(n, x, i) is Some,
    ensures
        parent_at(n, x, m) is Some,
    decreases m,
{
    if m > k {
        let p = (k - j) as nat;
        let d = (m - k) as nat;
        lemma_parent_shift(n, x, j, k, d);
        assert(parent_at(n, x, j + d) == parent_at(n, x, m));
        lemma_cycle_never_ends(n, x, j, k, (j + d) as nat);
    }
}

/// The message of the first node from `i` on whose chain of parents has a cycle.
pub open spec fn cycles_error(n: Seq<TreeNode>, i: int) -> Option<Seq<char>>
    decreases n.len() - i,
{
    if i < 0 || i >= n.len() {
        None
    } else if parents_error(n, n[i].id.value) is Some {
        parents_error(n, n[i].id.value)
    } else {
        cycles_error(n, i + 1)
    }
}

/// The message that validating the arena gives: a missing root, a root with a parent,
/// the first node that fails its checks, or else the first cycle of parents.
pub open spec fn validation_error(n: Seq<TreeNode>) -> Option<Seq<char>> {
    if n.len() == 0 {
        Some("Root node (NodeId(0)) missing"@)
    } else if n[0].parent is Some {
        Some("Root node (NodeId(0)) must have no parent"@)
    } else if nodes_error(n, 0) is Some {
        nodes_error(n, 0)
    } else {
        cycles_error(n, 0)
    }
}

/// The error that a message gives, or success without one.
pub open spec fn as_result(e: Option<Seq<char>>, r: Result<(), String>) -> bool {
    match r {
        Ok(()) => e is None,
        Err(s) => e == Some(s@),
    }
}

/// How an id is written in a message: `NodeId { value: .. }` with its decimal digits.
pub open spec fn id_text(id: NodeId) -> Seq<char> {
    "NodeId { value: "@ + decimal(id.value as u64) + " }"@
}

/// How an optional id is written in a message: `Some(NodeId { value: .. })` or `None`.
pub open spec fn opt_id_text(o: Option<NodeId>) -> Seq<char> {
    match o {
        Some(id) => "Some("@ + id_text(id) + ")"@,
        None => "None"@,
    }
}

/// `prefix`, the id as `NodeId { value: .. }`, then `suffix`.
fn id_message(prefix: &str, id: NodeId, suffix: &str) -> (r: String)
    ensures
        r@ == prefix@ + id_text(id) + suffix@,
{
    let mut s = String::new();
    push_str(&mut s, prefix);
    push_str(&mut s, "NodeId { value: ");
    let d = decimal_string(id.value as u64);
    push_str(&mut s, d.as_str());
    push_str(&mut s, " }");
    push_str(&mut s, suffix);
    proof {
        assert(s@ =~= prefix@ + id_text(id) + suffix@);
    }
    s
}

/// `prefix` followed by the id as `NodeId { value: .. }`.
fn id_last(prefix: &str, id: NodeId) -> (r: String)
    ensures
        r@ == prefix@ + id_text(id),
{
    let r = id_message(prefix, id, "");
    proof {
        reveal_strlit("");
        assert(prefix@ + id_text(id) + ""@ =~= prefix@ + id_text(id));
    }
    r
}

/// An optional id as `Some(NodeId { value: .. })` or `None`.
fn opt_id_message(o: Option<NodeId>) -> (r: String)
    ensures
        r@ == opt_id_text(o),
{
    match o {
        Some(id) => id_message("Some(", id, ")"),
        None => text_message("None"),
    }
}

/// `prefix`, the first id, `middle`, the second id.
fn ids_message(prefix: &str, a: NodeId, middle: &str, b: NodeId) -> (r: String)
    ensures
        r@ == prefix@ + id_text(a) + middle@ + id_text(b),
{
    let mut s = id_message(prefix, a, middle);
    push_str(&mut s, "NodeId { value: ");
    let d = decimal_string(b.value as u64);
    push_str(&mut s, d.as_str());
    push_str(&mut s, " }");
    proof {
        assert(s@ =~= prefix@ + id_text(a) + middle@ + id_text(b));
    }
    s
}

/// A message that is the text itself.
fn text_message(text: &str) -> (r: String)
    ensures
        r@ == text@,
{
    let mut s = String::new();
    push_str(&mut s, text);
    proof {
        assert(s@ =~= text@);
    }
    s
}

// ---------------------------------------------------------------------------
// Chains
// ---------------------------------------------------------------------------

proof fn lemma_chain_some_before(n: Seq<TreeNode>, f: usize, j: nat, k: nat)
    requires
        j <= k,
        chain_at(n, f, k) is Some,
    ensures
        chain_at(n, f, j) is Some,
    decreases k - j,
{
    if j < k {
        lemma_chain_some_before(n, f, j + 1, k);
    }
}

proof fn lemma_chain_none_after(n: Seq<TreeNode>, f: usize, j: nat, k: nat)
    requires
        j <= k,
        chain_at(n, f, j) is None,
    ensures
        chain_at(n, f, k) is None,
    decreases k - j,
{
    if j < k {
        lemma_chain_none_after(n, f, j, (k - 1) as nat);
    }
}

proof fn lemma_parent_some_before(n: Seq<TreeNode>, x: usize, j: nat, k: nat)
    requires
        j <= k,
        parent_at(n, x, k) is Some,
    ensures
        parent_at(n, x, j) is Some,
    decreases k - j,
{
    if j < k {
        lemma_parent_some_before(n, x, j + 1, k);
    }
}

/// The chain of children from `f` fails when node `c`, at step `s` of it, fails its checks.
proof fn lemma_chain_fails_at(n: Seq<TreeNode>, f: usize, id: NodeId, last: Option<NodeId>, s: nat, c: usize)
    requires
        chain_at(n, f, s) == Some(c),
        !member_ok(n, c, id),
    ensures
        !exists|m: nat| #[trigger] chain_ok(n, f, id, m) && last == Some(NodeId { value: chain_at(n, f, (m - 1) as nat)->0 }),
{
    assert forall|m: nat| !(#[trigger] chain_ok(n, f, id, m)) by {
        if m > s {
            assert(chain_at(n, f, s) matches Some(c) && member_ok(n, c, id) ==> false);
        } else {
            lemma_chain_some_before(n, f, m, s);
        }
    }
}

/// Checks the chain of children of the node with id `id`, from its first child `f`.
fn check_chain(n: &Vec<TreeNode>, id: NodeId, f: usize, last: Option<NodeId>) -> (r: Result<(), String>)
    ensures
        r is Ok <==> exists|m: nat| #[trigger] chain_ok(n@, f, id, m) && last == Some(NodeId { value: chain_at(n@, f, (m - 1) as nat)->0 }),
        as_result(chain_error(n@, id, last, 0, f), r),
{
    let len = n.len();
    let ghost s = n@;
    let mut cur = f;
    let mut steps: usize = 0;
    loop
        invariant
            s == n@,
            len == n.len(),
            chain_at(s, f, steps as nat) == Some(cur),
            forall|k: nat| k < steps ==> (#[trigger] chain_at(s, f, k) matches Some(c) && member_ok(s, c, id)),
            steps < len || steps == 0,
            chain_error(s, id, last, 0, f) == chain_error(s, id, last, steps as nat, cur),
        decreases len - steps,
    {
        if cur >= len {
            proof {
                lemma_chain_fails_at(s, f, id, last, steps as nat, cur);
            }
            return Err(id_last("Invalid child reference at node ", NodeId { value: cur }));
        }
        let node = &n[cur];
        if !is_id(node.parent, id) {
            proof {
                lemma_chain_fails_at(s, f, id, last, steps as nat, cur);
            }
            return Err(ids_message("Child ", NodeId { value: cur }, " has incorrect parent, expected ", id));
        }
        if let Some(p) = node.prev_sibling {
            if p.value >= len {
                proof {
                    lemma_chain_fails_at(s, f, id, last, steps as nat, cur);
                }
                return Err(id_last("Invalid prev_sibling reference at node ", p));
            }
            if !is_id(n[p.value].next_sibling, NodeId { value: cur }) {
                proof {
                    lemma_chain_fails_at(s, f, id, last, steps as nat, cur);
                }
                return Err(ids_message("prev_sibling ", p, " next_sibling mismatch with ", NodeId { value: cur }));
            }
        }
        match node.next_sibling {
            Some(q) => {
                if q.value >= len {
                    proof {
                        lemma_chain_fails_at(s, f, id, last, steps as nat, cur);
                    }
                    return Err(id_last("Invalid next_sibling reference at node ", q));
                }
                if !is_id(n[q.value].prev_sibling, NodeId { value: cur }) {
                    proof {
                        lemma_chain_fails_at(s, f, id, last, steps as nat, cur);
                    }
                    return Err(ids_message("next_sibling ", q, " prev_sibling mismatch with ", NodeId { value: cur }));
                }
                proof {
                    assert(member_ok(s, cur, id));
                    assert forall|k: nat| k < steps + 1 implies (#[trigger] chain_at(s, f, k) matches Some(c) && member_ok(s, c, id)) by {
                        if k == steps {
                        }
                    }
                    assert(chain_at(s, f, (steps + 1) as nat) == Some(q.value));
                }
                if steps + 1 >= len {
                    proof {
                        assert forall|m: nat| !(#[trigger] chain_ok(s, f, id, m)) by {
                            if m <= len {
                                lemma_chain_some_before(s, f, m, (steps + 1) as nat);
                            }
                        }
                    }
                    return Err(id_last("Cycle detected in sibling chain at node ", q));
                }
                cur = q.value;
                steps = steps + 1;
            },
            None => {
                proof {
                    assert(member_ok(s, cur, id));
                    assert(chain_at(s, f, (steps + 1) as nat) is None);
                    assert(chain_ok(s, f, id, (steps + 1) as nat)) by {
                        assert forall|k: nat| k < steps + 1 implies (#[trigger] chain_at(s, f, k) matches Some(c) && member_ok(s, c, id)) by {
                            if k == steps {
                            }
                        }
                    }
                }
                if !is_id(last, NodeId { value: cur }) {
                    proof {
                        assert forall|m: nat| #[trigger] chain_ok(s, f, id, m) implies m == steps + 1 by {
                            if m > steps + 1 {
                                lemma_chain_none_after(s, f, (steps + 1) as nat, (m - 1) as nat);
                                assert(chain_at(s, f, (m - 1) as nat) matches Some(c) && member_ok(s, c, id));
                            } else if m < steps + 1 {
                                lemma_chain_some_before(s, f, m, steps as nat);
                            }
                        }
                    }
                    let mut msg = id_message("last_child mismatch at node ", id, ", expected ");
                    let e = opt_id_message(last);
                    push_str(&mut msg, e.as_str());
                    push_str(&mut msg, ", found ");
                    let fnd = opt_id_message(Some(NodeId { value: cur }));
                    push_str(&mut msg, fnd.as_str());
                    return Err(msg);
                }
                return Ok(());
            },
        }
    }
}

// ---------------------------------------------------------------------------
// Nodes and parents
// ---------------------------------------------------------------------------

/// Checks node `i`: its links to itself, its children, its siblings.
fn check_node(n: &Vec<TreeNode>, i: usize) -> (r: Result<(), String>)
    requires
        i < n.len(),
    ensures
        r is Ok <==> node_valid(n@, i as int),
        as_result(node_error(n@, i as int), r),
{
    let len = n.len();
    let node = &n[i];
    let id = node.id;
    if is_id(node.parent, id) {
        return Err(id_message("Node ", id, " references itself as parent"));
    }
    if is_id(node.prev_sibling, id) {
        return Err(id_message("Node ", id, " references itself as prev_sibling"));
    }
    if is_id(node.next_sibling, id) {
        return Err(id_message("Node ", id, " references itself as next_sibling"));
    }
    if is_id(node.first_child, id) {
        return Err(id_message("Node ", id, " references itself as first_child"));
    }
    if is_id(node.last_child, id) {
        return Err(id_message("Node ", id, " references itself as last_child"));
    }
    if let Some(p) = node.parent {
        if p.value >= len {
            return Err(ids_message("Invalid parent ", p, " reference at node ", id));
        }
    }
    if let Some(first) = node.first_child {
        if first.value >= len {
            return Err(ids_message("Invalid first_child ", first, " reference at node ", id));
        }
        if !is_id(n[first.value].parent, id) {
            return Err(id_last("first_child's parent does not match node ", id));
        }
        if n[first.value].prev_sibling.is_some() {
            let mut msg = id_message("first_child ", first, " of node ");
            let rest = id_message("", id, " has non-None prev_sibling");
            push_str(&mut msg, rest.as_str());
            proof {
                reveal_strlit("");
                assert(msg@ =~= "first_child "@ + id_text(first) + " of node "@ + id_text(id) + " has non-None prev_sibling"@);
            }
            return Err(msg);
        }
        match check_chain(n, id, first.value, node.last_child) {
            Ok(()) => {},
            Err(e) => return Err(e),
        }
    }
    if let Some(last) = node.last_child {
        if last.value >= len {
            return Err(id_last("Invalid last_child reference at node ", id));
        }
        if !is_id(n[last.value].parent, id) {
            return Err(id_last("last_child's parent does not match node ", id));
        }
        if n[last.value].next_sibling.is_some() {
            let mut msg = id_message("last_child ", last, " of node ");
            let rest = id_message("", id, " has non-None next_sibling");
            push_str(&mut msg, rest.as_str());
            proof {
                reveal_strlit("");
                assert(msg@ =~= "last_child "@ + id_text(last) + " of node "@ + id_text(id) + " has non-None next_sibling"@);
            }
            return Err(msg);
        }
    }
    if let Some(p) = node.prev_sibling {
        if p.value >= len {
            return Err(id_last("Invalid prev_sibling reference at node ", id));
        }
        if !is_id(n[p.value].next_sibling, id) {
            return Err(ids_message("prev_sibling ", p, " does not link back to ", id));
        }
    }
    if let Some(q) = node.next_sibling {
        if q.value >= len {
            return Err(id_last("Invalid next_sibling reference at node ", id));
        }
        if !is_id(n[q.value].prev_sibling, id) {
            return Err(ids_message("next_sibling ", q, " does not link back to ", id));
        }
    }
    Ok(())
}

/// Checks that the chain of parents from `x` ends, naming the first node that it
/// meets twice when it does not.
fn check_parents(n: &Vec<TreeNode>, x: usize) -> (r: Result<(), String>)
    ensures
        r is Ok <==> parents_end(n@, x),
        as_result(parents_error(n@, x), r),
{
    let len = n.len();
    let ghost s = n@;
    let mut visited: Vec<bool> = Vec::new();
    let mut q: usize = 0;
    while q < len
        invariant
            q <= len,
            visited@.len() == q,
            forall|i: int| 0 <= i < q ==> !visited@[i],
        decreases len - q,
    {
        visited.push(false);
        q = q + 1;
    }
    let mut cur: Option<usize> = Some(x);
    let mut k: usize = 0;
    loop
        invariant
            s == n@,
            len == n.len(),
            visited@.len() == len,
            k <= len,
            parent_at(s, x, k as nat) == cur,
            forall|j: nat| j < k ==> #[trigger] parent_at(s, x, j) is Some,
            forall|j: nat| j < k ==> #[trigger] parent_at(s, x, j)->0 < len,
            no_repeat_before(s, x, k as nat),
            forall|i: int| 0 <= i < len ==> (visited@[i] <==> exists|j: nat| j < k && #[trigger] parent_at(s, x, j) == Some(i as usize)),
        decreases len + 1 - k,
    {
        match cur {
            None => {
                proof {
                    assert(parent_at(s, x, k as nat) is None);
                }
                return Ok(());
            },
            Some(c) => {
                if c < len && visited[c] {
                    proof {
                        let j = choose|j: nat| j < k && #[trigger] parent_at(s, x, j) == Some(c);
                        assert(repeats_at(s, x, k as nat));
                        assert forall|i: nat| i <= k implies #[trigger] parent_at(s, x, i) is Some by {}
                        assert forall|m: nat| m <= s.len() + 2 implies !(#[trigger] parent_at(s, x, m) is None) by {
                            lemma_cycle_never_ends(s, x, j, k as nat, m);
                        }
                        let f = first_repeat(s, x);
                        assert(repeats_at(s, x, f) && no_repeat_before(s, x, f));
                        if f < k {
                            let j2 = choose|j2: nat| j2 < f && #[trigger] parent_at(s, x, j2) == parent_at(s, x, f);
                            assert(parent_at(s, x, j2) != parent_at(s, x, f));
                        } else if f > k {
                            assert(parent_at(s, x, j) != parent_at(s, x, k as nat));
                        }
                    }
                    return Err(id_last("Cycle detected in parent chain at node ", NodeId { value: c }));
                }
                if c >= len {
                    proof {
                        assert(parent_at(s, x, (k + 1) as nat) is None);
                    }
                    return Ok(());
                }
                proof {
                    assert forall|i: nat| i < k implies #[trigger] parent_at(s, x, i) != Some(c) by {
                        if parent_at(s, x, i) == Some(c) {
                            assert(visited@[c as int]);
                        }
                    }
                    if k == len {
                        let vals = Seq::new((k + 1) as nat, |j: int| parent_at(s, x, j as nat)->0);
                        assert forall|i: int, j: int| 0 <= i < vals.len() && 0 <= j < vals.len() && i != j implies vals[i] != vals[j] by {
                            assert(parent_at(s, x, i as nat) is Some && parent_at(s, x, j as nat) is Some);
                            if i < j {
                                assert(parent_at(s, x, i as nat) != parent_at(s, x, j as nat));
                            } else {
                                assert(parent_at(s, x, j as nat) != parent_at(s, x, i as nat));
                            }
                        }
                        assert(vals.no_duplicates());
                        assert forall|i: int| 0 <= i < vals.len() implies #[trigger] vals[i] < len by {}
                        lemma_distinct_bound(vals, len as nat);
                        assert(false);
                    }
                }
                let ghost v0 = visited@;
                visited.set(c, true);
                cur = match n[c].parent {
                    Some(p) => Some(p.value),
                    None => None,
                };
                proof {
                    assert(parent_at(s, x, (k + 1) as nat) == cur);
                    assert forall|i: nat, j: nat| i < j < k + 1 implies #[trigger] parent_at(s, x, i) != #[trigger] parent_at(s, x, j) by {
                        if j == k {
                            if parent_at(s, x, i) == parent_at(s, x, j) {
                                assert(v0[c as int]);
                            }
                        }
                    }
                    assert forall|i: int| 0 <= i < len implies (visited@[i] <==> exists|j: nat| j < k + 1 && #[trigger] parent_at(s, x, j) == Some(i as usize)) by {
                        if i == c {
                            assert(parent_at(s, x, k as nat) == Some(i as usize));
                        } else {
                            if exists|j: nat| j < k + 1 && #[trigger] parent_at(s, x, j) == Some(i as usize) {
                                let j = choose|j: nat| j < k + 1 && #[trigger] parent_at(s, x, j) == Some(i as usize);
                                assert(j < k);
                            }
                        }
                    }
                }
                k = k + 1;
            },
        }
    }
}

/// Validates the structural integrity of an arena of nodes:
///
/// 1. node 0 exists and has no parent;
/// 2. first and last children point back at their parent, the first has no
///    previous sibling and the last no next one, and the chain of children from the
///    first ends at the last, each child pointing at the parent;
/// 3. previous and next siblings point back;
/// 4. every id that a node links to, its parent too, lies in the arena;
/// 5. no node links to itself, and no chain of parents or siblings has a cycle.
///
/// Nodes without a parent other than node 0 are allowed.
pub fn validate_nodes(n: &Vec<TreeNode>) -> (r: Result<(), String>)
    ensures
        r is Ok <==> nodes_valid(n@),
        as_result(validation_error(n@), r),
{
    if n.len() == 0 {
        return Err(text_message("Root node (NodeId(0)) missing"));
    }
    if n[0].parent.is_some() {
        return Err(text_message("Root node (NodeId(0)) must have no parent"));
    }
    let mut i: usize = 0;
    while i < n.len()
        invariant
            n@.len() > 0,
            n@[0].parent is None,
            i <= n.len(),
            forall|j: int| 0 <= j < i ==> #[trigger] node_valid(n@, j),
            nodes_error(n@, 0) == nodes_error(n@, i as int),
        decreases n.len() - i,
    {
        match check_node(n, i) {
            Ok(()) => {},
            Err(e) => return Err(e),
        }
        i = i + 1;
    }
    proof {
        assert(nodes_error(n@, n@.len() as int) is None);
    }
    let mut i: usize = 0;
    while i < n.len()
        invariant
            n@.len() > 0,
            n@[0].parent is None,
            i <= n.len(),
            forall|j: int| 0 <= j < n@.len() ==> #[trigger] node_valid(n@, j),
            forall|j: int| 0 <= j < i ==> #[trigger] parents_end(n@, n@[j].id.value),
            validation_error(n@) == cycles_error(n@, i as int),
        decreases n.len() - i,
    {
        match check_parents(n, n[i].id.value) {
            Ok(()) => {},
            Err(e) => return Err(e),
        }
        i = i + 1;
    }
    Ok(())
}

impl Tree {
    /// Validates the structural integrity of the tree (see [`validate_nodes`]).
    pub fn validate(&self) -> (r: Result<(), String>)
        ensures
            r is Ok <==> nodes_valid(self.nodes@),
            as_result(validation_error(self.nodes@), r),
            self.wf() && self.len() > 0 && self.parent(0) is None ==> r is Ok,
    {
        proof {
            if self.wf() && self.len() > 0 && self.parent(0) is None {
                lemma_wf_tree_is_valid(*self);
            }
        }
        validate_nodes(&self.nodes)
    }
}

// ---------------------------------------------------------------------------
// Trees of the library are valid
// ---------------------------------------------------------------------------

/// A sequence of distinct indices below `len` has at most `len` elements.
pub proof fn lemma_distinct_bound(s: Seq<usize>, len: nat)
    requires
        s.no_duplicates(),
        forall|k: int| 0 <= k < s.len() ==> #[trigger] s[k] < len,
    ensures
        s.len() <= len,
{
    let si = s.map_values(|u: usize| u as int);
    assert forall|i: int, j: int| 0 <= i < si.len() && 0 <= j < si.len() && i != j implies si[i] != si[j] by {
        assert(s[i] != s[j]);
    }
    assert(si.no_duplicates());
    si.unique_seq_to_set();
    vstd::set_lib::lemma_int_range(0, len as int);
    assert(si.to_set().subset_of(vstd::set_lib::set_int_range(0, len as int))) by {
        assert forall|v: int| si.to_set().contains(v) implies vstd::set_lib::set_int_range(0, len as int).contains(v) by {
            let k = choose|k: int| 0 <= k < si.len() && si[k] == v;
            assert(s[k] < len);
        }
    }
    vstd::set_lib::lemma_len_subset(si.to_set(), vstd::set_lib::set_int_range(0, len as int));
}

/// In a tree of the library, the chain of siblings from a first child `f` is the
/// sequence of children, step by step.
proof fn lemma_chain_is_children(t: Tree, f: usize, k: nat)
    requires
        t.wf(),
        f < t.len(),
        t.index(f as int) == 0,
        k <= t.siblings(f as int).len(),
    ensures
        chain_at(t.nodes@, f, k) == (if k < t.siblings(f as int).len() { Some(t.siblings(f as int)[k as int]) } else { None }),
    decreases k,
{
    let n = t.nodes@;
    let cs = t.siblings(f as int);
    assert(node_ok(n, t.chains@, t.pos@, t.depth@, f as int));
    if k > 0 {
        lemma_chain_is_children(t, f, (k - 1) as nat);
        let c = cs[k - 1];
        assert(chain_member_ok(n.len(), t.chains@, t.pos@, f as int, k - 1));
        assert(node_ok(n, t.chains@, t.pos@, t.depth@, c as int));
    }
}

/// In a tree of the library, the chain of parents from `x` is `x` and its ancestors.
proof fn lemma_parents_are_ancestors(t: Tree, x: usize, k: nat)
    requires
        t.wf(),
        x < t.len(),
        k <= t.ancestors(x as int).len() + 1,
    ensures
        parent_at(t.nodes@, x, k) == (if k <= t.ancestors(x as int).len() { Some((seq![x] + t.ancestors(x as int))[k as int]) } else { None }),
    decreases k,
{
    let n = t.nodes@;
    let d = t.depth@;
    assert(node_ok(n, t.chains@, t.pos@, d, x as int));
    if k > 0 {
        let a = t.ancestors(x as int);
        match par(n, x as int) {
            Some(q) => {
                assert(a == seq![q].add(ancestors_of(n, d, q as int)));
                lemma_parents_are_ancestors(t, q, (k - 1) as nat);
                lemma_parent_step(t, x, q, (k - 1) as nat);
                assert((seq![q] + t.ancestors(q as int)) =~= a);
                if k <= a.len() {
                    assert((seq![x] + a)[k as int] == a[k - 1]);
                }
            },
            None => {
                assert(a.len() == 0);
                assert(parent_at(n, x, 0) == Some(x));
                assert(parent_at(n, x, 1) is None);
                if k > 1 {
                    lemma_parent_none_after(n, x, 1, k);
                }
            },
        }
    }
}

proof fn lemma_parent_none_after(n: Seq<TreeNode>, x: usize, j: nat, k: nat)
    requires
        j <= k,
        parent_at(n, x, j) is None,
    ensures
        parent_at(n, x, k) is None,
    decreases k - j,
{
    if j < k {
        lemma_parent_none_after(n, x, j, (k - 1) as nat);
    }
}

/// A step up from `x` to its parent `q` shifts the chain of parents by one.
proof fn lemma_parent_step(t: Tree, x: usize, q: usize, k: nat)
    requires
        x < t.len(),
        par(t.nodes@, x as int) == Some(q),
    ensures
        parent_at(t.nodes@, x, k + 1) == parent_at(t.nodes@, q, k),
    decreases k,
{
    assert(parent_at(t.nodes@, x, 0) == Some(x));
    assert(parent_at(t.nodes@, q, 0) == Some(q));
    if k > 0 {
        lemma_parent_step(t, x, q, (k - 1) as nat);
    }
}

/// `x` and its ancestors are distinct nodes of the tree, at falling depths.
proof fn lemma_ancestors_distinct(t: Tree, x: usize)
    requires
        t.wf(),
        x < t.len(),
    ensures
        (seq![x] + t.ancestors(x as int)).no_duplicates(),
        forall|k: int| 0 <= k < (seq![x] + t.ancestors(x as int)).len() ==> {
            &&& #[trigger] (seq![x] + t.ancestors(x as int))[k] < t.len()
            &&& t.depth@[(seq![x] + t.ancestors(x as int))[k] as int] <= t.depth@[x as int]
            &&& k > 0 ==> t.depth@[(seq![x] + t.ancestors(x as int))[k] as int] < t.depth@[x as int]
        },
    decreases t.depth@[x as int],
{
    let n = t.nodes@;
    let d = t.depth@;
    assert(node_ok(n, t.chains@, t.pos@, d, x as int));
    let a = t.ancestors(x as int);
    let all = seq![x] + a;
    if let Some(q) = par(n, x as int) {
        lemma_ancestors_distinct(t, q);
        let rest = seq![q] + t.ancestors(q as int);
        assert(a == seq![q].add(ancestors_of(n, d, q as int)));
        assert(a =~= rest);
        assert forall|k: int| 0 <= k < all.len() implies {
            &&& #[trigger] all[k] < t.len()
            &&& d[all[k] as int] <= d[x as int]
            &&& k > 0 ==> d[all[k] as int] < d[x as int]
        } by {
            if k > 0 {
                assert(all[k] == rest[k - 1]);
            }
        }
        assert forall|i: int, j: int| 0 <= i < all.len() && 0 <= j < all.len() && i != j implies all[i] != all[j] by {
            if i > 0 && j > 0 {
                assert(all[i] == rest[i - 1]);
                assert(all[j] == rest[j - 1]);
            } else if i == 0 {
                assert(d[all[j] as int] < d[x as int]);
            } else {
                assert(d[all[i] as int] < d[x as int]);
            }
        }
    } else {
        assert(a.len() == 0);
        assert(all =~= seq![x]);
    }
}

/// Node `i` of a tree of the library passes its checks.
proof fn lemma_node_valid(t: Tree, i: int)
    requires
        t.wf(),
        0 <= i < t.len(),
    ensures
        node_valid(t.nodes@, i),
{
    let n = t.nodes@;
    let c = t.chains@;
    let p = t.pos@;
    let d = t.depth@;
    assert(node_ok(n, c, p, d, i));
    let id = n[i].id;
    assert(id == NodeId { value: i as usize });
    let s = c[i];
    let k = p[i] as int;
    if k > 0 {
        assert(chain_member_ok(n.len(), c, p, i, k - 1));
        assert(node_ok(n, c, p, d, s[k - 1] as int));
    }
    if k + 1 < s.len() {
        assert(chain_member_ok(n.len(), c, p, i, k + 1));
        assert(node_ok(n, c, p, d, s[k + 1] as int));
    }
    if let Some(q) = par(n, i) {
        assert(node_ok(n, c, p, d, q as int));
    }
    if let Some(f) = fst(n, i) {
        assert(node_ok(n, c, p, d, f as int));
        let cs = c[f as int];
        assert(chain_member_ok(n.len(), c, p, f as int, 0));
        assert(cs[0] == f);
        let m = cs.len();
        assert forall|j: nat| j <= m implies #[trigger] chain_at(n, f, j) == (if j < m { Some(cs[j as int]) } else { None }) by {
            lemma_chain_is_children(t, f, j);
        }
        assert forall|j: nat| j < m implies (#[trigger] chain_at(n, f, j) matches Some(x) && member_ok(n, x, id)) by {
            let x = cs[j as int];
            assert(chain_member_ok(n.len(), c, p, f as int, j as int));
            assert(node_ok(n, c, p, d, x as int));
            if j > 0 {
                assert(chain_member_ok(n.len(), c, p, f as int, j - 1));
                assert(node_ok(n, c, p, d, cs[j - 1] as int));
            }
            if j + 1 < m {
                assert(chain_member_ok(n.len(), c, p, f as int, j as int + 1));
                assert(node_ok(n, c, p, d, cs[j as int + 1] as int));
            }
        }
        assert forall|a: int, b: int| 0 <= a < cs.len() && 0 <= b < cs.len() && a != b implies cs[a] != cs[b] by {
            assert(chain_member_ok(n.len(), c, p, f as int, a));
            assert(chain_member_ok(n.len(), c, p, f as int, b));
        }
        assert forall|j: int| 0 <= j < cs.len() implies #[trigger] cs[j] < n.len() by {
            assert(chain_member_ok(n.len(), c, p, f as int, j));
        }
        lemma_distinct_bound(cs, n.len());
        assert(chain_ok(n, f, id, m as nat));
        assert(chain_at(n, f, (m - 1) as nat) == Some(cs[m - 1]));
    }
    if let Some(l) = lst(n, i) {
        let f = fst(n, i)->0;
        assert(node_ok(n, c, p, d, f as int));
        assert(node_ok(n, c, p, d, l as int));
        assert(chain_member_ok(n.len(), c, p, f as int, c[f as int].len() - 1));
    }
}

/// Every tree that the library keeps and whose node 0 has no parent passes `validate`.
pub proof fn lemma_wf_tree_is_valid(t: Tree)
    requires
        t.wf(),
        t.len() > 0,
        t.parent(0) is None,
    ensures
        nodes_valid(t.nodes@),
{
    let n = t.nodes@;
    assert(n[0].parent is None);
    assert forall|i: int| 0 <= i < n.len() implies #[trigger] node_valid(n, i) by {
        lemma_node_valid(t, i);
    }
    assert forall|i: int| 0 <= i < n.len() implies #[trigger] parents_end(n, n[i].id.value) by {
        assert(node_ok(n, t.chains@, t.pos@, t.depth@, i));
        let x = i as usize;
        lemma_ancestors_distinct(t, x);
        let all = seq![x] + t.ancestors(i);
        lemma_distinct_bound(all, n.len());
        let m = (t.ancestors(i).len() + 1) as nat;
        lemma_parents_are_ancestors(t, x, m);
        assert(parent_at(n, x, m) is None);
    }
}

} // verus!
