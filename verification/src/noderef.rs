//! A reference to a node: its id and the tree it lives in.
use vstd::prelude::*;
use crate::node::{NodeId, NodeData};
use crate::tree::Tree;
use crate::sink::Document;
use crate::ops::TreeNodeOps;
use crate::subtree::{subtree, subtree_ids, texts, child_ids, norm_total};
use crate::query::ids_of;
use crate::element::{trim, trim_chars, attr_index, lit_href};
use crate::text::{chars_of, contains_seq, chars_contains};
use crate::pseudo::{NonTSPseudoClass, pseudo_arg};

verus! {

/// A node of a tree, by id.
pub struct NodeRef<'a> {
    pub id: NodeId,
    pub tree: &'a Tree,
}

/// The ids of a sequence of node references.
pub open spec fn ref_ids(v: Seq<NodeRef>) -> Seq<usize> {
    v.map_values(|n: NodeRef| n.id.value)
}

impl<'a> NodeRef<'a> {
    /// Creates a reference to node `id` of `tree`.
    pub fn new(id: NodeId, tree: &'a Tree) -> (r: Self)
        ensures
            r.id == id,
            *r.tree == *tree,
    {
        NodeRef { id, tree }
    }
}

/// Node `x` is a text node whose contents contain `needle`.
pub open spec fn text_node_has(t: Tree, x: usize, needle: Seq<char>) -> bool {
    t.data(x as int) matches NodeData::Text { contents } && contains_seq(contents@, needle)
}

/// The text below node `x` is more than whitespace.
pub open spec fn not_blank(t: Tree, x: usize) -> bool {
    trim(texts(t, subtree(t, x))).len() > 0
}

/// Node `x` has exactly one child, a text node that is not blank.
pub open spec fn only_text(t: Tree, x: usize) -> bool {
    let cs = t.children(x as int);
    cs.len() == 1 && t.data(cs[0] as int) is Text && not_blank(t, cs[0])
}

/// Node `x` is an element without element children and without text children that
/// are more than whitespace.
pub open spec fn empty_element(t: Tree, x: usize) -> bool {
    let cs = t.children(x as int);
    &&& t.data(x as int) is Element
    &&& forall|j: int| 0 <= j < cs.len() ==> !(#[trigger] t.data(cs[j] as int) is Element) && !(t.data(cs[j] as int) is Text && not_blank(t, cs[j]))
}

/// Node `x` is an `a`, `area` or `link` element with an `href` attribute.
pub open spec fn link_node(t: Tree, x: usize) -> bool {
    t.data(x as int) matches NodeData::Element(e) && (e.name.local@ == "a"@ || e.name.local@ == "area"@ || e.name.local@ == "link"@)
        && attr_index(e.attrs@, lit_href()).is_some()
}

/// Whether node `x` matches the pseudo-class: links for `:any-link` and `:link`,
/// nodes with only text for `:only-text`, text below for `:has-text` and
/// `:contains`, never for the user-action and form states.
pub open spec fn pseudo_matches(t: Tree, x: usize, p: NonTSPseudoClass) -> bool {
    match p {
        NonTSPseudoClass::AnyLink | NonTSPseudoClass::Link => link_node(t, x),
        NonTSPseudoClass::OnlyText => only_text(t, x),
        NonTSPseudoClass::HasText(s) => exists|j: int| 0 <= j < subtree(t, x).len() && #[trigger] text_node_has(t, subtree(t, x)[j], s@),
        NonTSPseudoClass::Contains(s) => contains_seq(texts(t, subtree(t, x)), s@),
        _ => false,
    }
}

fn text_not_blank(tree: &Tree, x: usize) -> (r: bool)
    requires
        tree.wf(),
        x < tree.len(),
    ensures
        r == not_blank(*tree, x),
{
    let t = TreeNodeOps::text_of(tree, NodeId::new(x));
    let v = chars_of(t.as_str());
    trim_chars(v.as_slice()).len() > 0
}

impl<'a> NodeRef<'a> {
    /// The text of the node and its descendants.
    pub fn text(&self) -> (r: String)
        requires
            self.tree.wf(),
        ensures
            r@ == (if self.tree.valid(self.id.value as int) { texts(*self.tree, subtree(*self.tree, self.id.value)) } else { Seq::empty() }),
    {
        TreeNodeOps::text_of(self.tree, self.id)
    }

    /// The text of the node without its descendants.
    pub fn immediate_text(&self) -> (r: String)
        requires
            self.tree.wf(),
        ensures
            r@ == (if self.tree.valid(self.id.value as int) { texts(*self.tree, self.tree.children(self.id.value as int)) } else { Seq::empty() }),
    {
        TreeNodeOps::immediate_text_of(self.tree, self.id)
    }

    /// The formatted text of the node's children (see [`crate::text_format::format_text`]).
    pub fn formatted_text(&self) -> (r: String)
        requires
            self.tree.wf(),
        ensures
            r@ == (if self.tree.valid(self.id.value as int) { crate::text_format::formatted(*self.tree, self.id.value, false) } else { Seq::empty() }),
    {
        crate::text_format::format_text(self.tree, &self.id, false)
    }

    /// The number of characters of the node's text, each run of whitespace counted as one.
    pub fn normalized_char_count(&self) -> (r: usize)
        requires
            self.tree.wf(),
            self.tree.valid(self.id.value as int) ==> texts(*self.tree, subtree(*self.tree, self.id.value)).len() <= usize::MAX,
        ensures
            r == (if self.tree.valid(self.id.value as int) { norm_total(*self.tree, subtree(*self.tree, self.id.value)) } else { 0 }),
    {
        TreeNodeOps::normalized_char_count(self.tree, self.id)
    }

    /// Whether the node or one of its descendants is a text node that contains `needle`.
    pub fn has_text(&self, needle: &str) -> (r: bool)
        requires
            self.tree.wf(),
        ensures
            r == (self.tree.valid(self.id.value as int) && exists|j: int| 0 <= j < subtree(*self.tree, self.id.value).len()
                && #[trigger] text_node_has(*self.tree, subtree(*self.tree, self.id.value)[j], needle@)),
    {
        let t = self.tree;
        if self.id.value >= t.nodes.len() {
            return false;
        }
        let all = subtree_ids(t, self.id.value);
        let ghost sub = subtree(*t, self.id.value);
        let nv = chars_of(needle);
        let mut i: usize = 0;
        while i < all.len()
            invariant
                t.wf(),
                i <= all.len(),
                ids_of(all@) == sub,
                t == self.tree,
                self.id.value < t.len(),
                sub == subtree(*t, self.id.value),
                nv@ == needle@,
                forall|j: int| 0 <= j < all@.len() ==> (#[trigger] all@[j]).value < t.len(),
                forall|j: int| 0 <= j < i ==> !#[trigger] text_node_has(*t, sub[j], needle@),
            decreases all.len() - i,
        {
            let x = all[i].value;
            proof {
                assert(sub[i as int] == x);
            }
            if let NodeData::Text { contents } = &t.nodes[x].data {
                let cv = chars_of(contents.as_str());
                if chars_contains(cv.as_slice(), nv.as_slice()) {
                    proof {
                        assert(text_node_has(*t, sub[i as int], needle@));
                        assert(0 <= i < sub.len());
                    }
                    return true;
                }
            }
            i = i + 1;
        }
        false
    }

    /// Whether the node has exactly one child, a text node that is not blank.
    pub fn has_only_text(&self) -> (r: bool)
        requires
            self.tree.wf(),
        ensures
            r == (self.tree.valid(self.id.value as int) && only_text(*self.tree, self.id.value)),
    {
        let t = self.tree;
        if self.id.value >= t.nodes.len() {
            return false;
        }
        let cs = child_ids(t, self.id.value);
        if cs.len() != 1 {
            return false;
        }
        let c = cs[0].value;
        proof {
            assert(t.children(self.id.value as int)[0] == c);
        }
        t.nodes[c].is_text() && text_not_blank(t, c)
    }

    /// Whether the node is an element without element children and without text
    /// children that are more than whitespace.
    pub fn is_empty_element(&self) -> (r: bool)
        requires
            self.tree.wf(),
        ensures
            r == (self.tree.valid(self.id.value as int) && empty_element(*self.tree, self.id.value)),
    {
        let t = self.tree;
        if self.id.value >= t.nodes.len() {
            return false;
        }
        if !t.nodes[self.id.value].is_element() {
            return false;
        }
        let cs = child_ids(t, self.id.value);
        let ghost s = t.children(self.id.value as int);
        let mut i: usize = 0;
        while i < cs.len()
            invariant
                t.wf(),
                i <= cs.len(),
                ids_of(cs@) == s,
                t == self.tree,
                s == t.children(self.id.value as int),
                forall|j: int| 0 <= j < cs@.len() ==> (#[trigger] cs@[j]).value < t.len(),
                forall|j: int| 0 <= j < i ==> !(#[trigger] t.data(s[j] as int) is Element) && !(t.data(s[j] as int) is Text && not_blank(*t, s[j])),
            decreases cs.len() - i,
        {
            let c = cs[i].value;
            proof {
                assert(s[i as int] == c);
            }
            if t.nodes[c].is_element() || (t.nodes[c].is_text() && text_not_blank(t, c)) {
                proof {
                    assert(0 <= i < s.len());
                    assert(t.data(s[i as int] as int) is Element || (t.data(s[i as int] as int) is Text && not_blank(*t, s[i as int])));
                }
                return false;
            }
            i = i + 1;
        }
        true
    }

    /// Whether the node matches a pseudo-class that is not about the tree's structure.
    pub fn match_non_ts_pseudo_class(&self, pseudo: &NonTSPseudoClass) -> (r: bool)
        requires
            self.tree.wf(),
            self.tree.valid(self.id.value as int),
        ensures
            r == pseudo_matches(*self.tree, self.id.value, *pseudo),
    {
        match pseudo {
            NonTSPseudoClass::AnyLink | NonTSPseudoClass::Link => {
                match self.tree.nodes[self.id.value].as_element() {
                    Some(e) => {
                        proof {
                            reveal_strlit("href");
                            reveal_strlit("a");
                            reveal_strlit("area");
                            reveal_strlit("link");
                            assert("href"@ =~= lit_href());
                            assert("a"@ =~= seq!['a']);
                            assert("area"@ =~= seq!['a', 'r', 'e', 'a']);
                            assert("link"@ =~= seq!['l', 'i', 'n', 'k']);
                        }
                        e.is_link()
                    },
                    None => false,
                }
            },
            NonTSPseudoClass::OnlyText => self.has_only_text(),
            NonTSPseudoClass::HasText(s) => self.has_text(s.as_str()),
            NonTSPseudoClass::Contains(s) => {
                let t = self.text();
                let tv = chars_of(t.as_str());
                let sv = chars_of(s.as_str());
                chars_contains(tv.as_slice(), sv.as_slice())
            },
            _ => false,
        }
    }
}

impl Document {
    /// The document node.
    pub fn root(&self) -> (r: NodeRef<'_>)
        ensures
            r.id.value == 0,
            *r.tree == self.tree,
    {
        self.tree.root()
    }

    /// The text of the whole document.
    pub fn text(&self) -> (r: String)
        requires
            self.tree.wf(),
        ensures
            r@ == (if self.tree.valid(0) { texts(self.tree, subtree(self.tree, 0)) } else { Seq::empty() }),
    {
        self.root().text()
    }

    /// The formatted text of the whole document (see [`crate::text_format::format_text`]).
    pub fn formatted_text(&self) -> (r: String)
        requires
            self.tree.wf(),
        ensures
            r@ == (if self.tree.valid(0) { crate::text_format::formatted(self.tree, 0, false) } else { Seq::empty() }),
    {
        self.root().formatted_text()
    }
}

} // verus!
