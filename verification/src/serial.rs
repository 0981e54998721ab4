//! Serialization of a subtree as the sequence of calls that a markup serializer gets.
use vstd::prelude::*;
use crate::node::{NodeId, NodeData};
use crate::tree::Tree;
use crate::noderef::NodeRef;
use crate::query::ids_of;
use crate::subtree::child_ids;

verus! {

/// One call of a serializer, with the node whose data it writes.
#[derive(Clone, Copy, Debug, PartialEq, Eq, Structural)]
pub enum SerializeStep {
    /// Opens an element: its name and attributes.
    StartElem(NodeId),
    /// Closes an element.
    EndElem(NodeId),
    /// Writes a doctype by its name.
    Doctype(NodeId),
    /// Writes the contents of a text node.
    Text(NodeId),
    /// Writes a comment.
    Comment(NodeId),
    /// Writes a processing instruction.
    ProcessingInstruction(NodeId),
}

/// Whether the node itself is written, or only its children.
#[derive(Clone, Copy, Debug, PartialEq, Eq, Structural)]
pub enum TraversalScope {
    IncludeNode,
    ChildrenOnly,
}

/// The steps that write node `x` and what lies below it: an element opens, writes its
/// children and closes; documents and fragments write their children only; any other
/// node is one step.
pub open spec fn ser_node(t: Tree, x: usize, fuel: nat) -> Seq<SerializeStep>
    decreases fuel, 0int,
{
    let id = NodeId { value: x };
    match t.data(x as int) {
        NodeData::Element(_) => if fuel == 0 {
            seq![SerializeStep::StartElem(id), SerializeStep::EndElem(id)]
        } else {
            let cs = t.children(x as int);
            seq![SerializeStep::StartElem(id)] + ser_forest(t, cs, cs.len() as int, (fuel - 1) as nat)
                + seq![SerializeStep::EndElem(id)]
        },
        NodeData::Document | NodeData::Fragment => if fuel == 0 {
            Seq::empty()
        } else {
            let cs = t.children(x as int);
            ser_forest(t, cs, cs.len() as int, (fuel - 1) as nat)
        },
        NodeData::Doctype { .. } => seq![SerializeStep::Doctype(id)],
        NodeData::Text { .. } => seq![SerializeStep::Text(id)],
        NodeData::Comment { .. } => seq![SerializeStep::Comment(id)],
        NodeData::ProcessingInstruction { .. } => seq![SerializeStep::ProcessingInstruction(id)],
    }
}

/// The steps that write the first `k` nodes of `cs`, one after the other.
pub open spec fn ser_forest(t: Tree, cs: Seq<usize>, k: int, fuel: nat) -> Seq<SerializeStep>
    decreases fuel, k,
{
    if k <= 0 {
        Seq::empty()
    } else {
        ser_forest(t, cs, k - 1, fuel) + ser_node(t, cs[k - 1], fuel)
    }
}

/// The steps that write node `x` in the given scope; nothing for an id out of the tree.
pub open spec fn serialized(t: Tree, x: int, scope: TraversalScope) -> Seq<SerializeStep> {
    if 0 <= x < t.len() {
        match scope {
            TraversalScope::IncludeNode => ser_node(t, x as usize, t.len()),
            TraversalScope::ChildrenOnly => {
                let cs = t.children(x);
                ser_forest(t, cs, cs.len() as int, t.len())
            },
        }
    } else {
        Seq::empty()
    }
}

fn push_children_steps(tree: &Tree, x: usize, fuel: usize, out: &mut Vec<SerializeStep>)
    requires
        tree.wf(),
        x < tree.len(),
    ensures
        final(out)@ == old(out)@ + ser_forest(*tree, tree.children(x as int), tree.children(x as int).len() as int, fuel as nat),
    decreases fuel, 1int,
{
    let cs = child_ids(tree, x);
    let ghost s = tree.children(x as int);
    let ghost start = out@;
    let mut k: usize = 0;
    proof {
        assert(out@ =~= start + ser_forest(*tree, s, 0, fuel as nat));
    }
    while k < cs.len()
        invariant
            tree.wf(),
            k <= cs.len(),
            ids_of(cs@) == s,
            forall|j: int| 0 <= j < cs@.len() ==> (#[trigger] cs@[j]).value < tree.len(),
            out@ == start + ser_forest(*tree, s, k as int, fuel as nat),
        decreases cs.len() - k,
    {
        let c = cs[k].value;
        proof {
            assert(c == s[k as int]);
        }
        push_node_steps(tree, c, fuel, out);
        k = k + 1;
        proof {
            assert(out@ =~= start + ser_forest(*tree, s, k as int, fuel as nat));
        }
    }
}

fn push_node_steps(tree: &Tree, x: usize, fuel: usize, out: &mut Vec<SerializeStep>)
    requires
        tree.wf(),
        x < tree.len(),
    ensures
        final(out)@ == old(out)@ + ser_node(*tree, x, fuel as nat),
    decreases fuel, 0int,
{
    let id = NodeId::new(x);
    match &tree.nodes[x].data {
        NodeData::Element(_) => {
            out.push(SerializeStep::StartElem(id));
            if fuel > 0 {
                push_children_steps(tree, x, fuel - 1, out);
            }
            out.push(SerializeStep::EndElem(id));
            proof {
                if fuel == 0 {
                    assert(out@ =~= old(out)@ + ser_node(*tree, x, fuel as nat));
                } else {
                    let cs = tree.children(x as int);
                    assert(out@ =~= old(out)@ + (seq![SerializeStep::StartElem(id)]
                        + ser_forest(*tree, cs, cs.len() as int, (fuel - 1) as nat)
                        + seq![SerializeStep::EndElem(id)]));
                }
            }
        },
        NodeData::Document | NodeData::Fragment => {
            if fuel > 0 {
                push_children_steps(tree, x, fuel - 1, out);
            } else {
                proof {
                    assert(out@ =~= old(out)@ + ser_node(*tree, x, fuel as nat));
                }
            }
        },
        NodeData::Doctype { .. } => {
            out.push(SerializeStep::Doctype(id));
        },
        NodeData::Text { .. } => {
            out.push(SerializeStep::Text(id));
        },
        NodeData::Comment { .. } => {
            out.push(SerializeStep::Comment(id));
        },
        NodeData::ProcessingInstruction { .. } => {
            out.push(SerializeStep::ProcessingInstruction(id));
        },
    }
}

/// A node made ready for serialization.
pub struct SerializableNodeRef<'a>(pub NodeRef<'a>);

impl<'a> SerializableNodeRef<'a> {
    /// The calls that serializing the node makes, in order: the node and its
    /// descendants in document order, each element opened before its children and
    /// closed after them. With `ChildrenOnly`, the node's own children are written
    /// whatever kind of node it is.
    pub fn serialize(&self, traversal_scope: TraversalScope) -> (r: Vec<SerializeStep>)
        requires
            self.0.tree.wf(),
        ensures
            r@ == serialized(*self.0.tree, self.0.id.value as int, traversal_scope),
    {
        let tree = self.0.tree;
        let x = self.0.id.value;
        let mut out: Vec<SerializeStep> = Vec::new();
        if x >= tree.nodes.len() {
            return out;
        }
        match traversal_scope {
            TraversalScope::IncludeNode => push_node_steps(tree, x, tree.nodes.len(), &mut out),
            TraversalScope::ChildrenOnly => push_children_steps(tree, x, tree.nodes.len(), &mut out),
        }
        proof {
            assert(out@ =~= serialized(*tree, x as int, traversal_scope));
        }
        out
    }
}

} // verus!
