//! HTML manipulation: an arena tree of DOM nodes, its queries and its edits.
use vstd::prelude::*;

pub mod node;
pub mod text;
pub mod element;
pub mod tree;
pub mod detach;
pub mod attach;
pub mod reparent;
pub mod ops;
pub mod query;
pub mod md;
pub mod minisel;
pub mod subtree;
pub mod noderef;
pub mod text_format;
pub mod validate;
pub mod merge;
pub mod pseudo;
pub mod css_path;
pub mod tree_api;
pub mod traversal;
pub mod edit;
pub mod laws;
pub mod minimatch;
pub mod serial;
pub mod chains;
pub mod sink;
pub mod node_api;
pub mod node_edit;
pub mod mdwrite;
pub mod selection;
pub mod selection_edit;
pub mod normalize;
pub mod strip;
pub mod copy;
pub mod mdspec;
pub mod mdser;
pub mod selection_copy;


verus! {
} // verus!
