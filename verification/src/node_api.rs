//! What a node reference tells of its node: its neighbours, its attributes, its kind,
//! and the tests that a selector engine makes on elements.
use vstd::prelude::*;
use crate::node::{NodeId, NodeData, Element, Attr, QualName};
use crate::tree::Tree;
use crate::noderef::{NodeRef, ref_ids};
use crate::ops::TreeNodeOps;
use crate::query::{ids_of, first_element_from, last_element_before};
use crate::subtree::{subtree, subtree_ids};
use crate::tree_api::{opt_ref, limited, refs_of};
use crate::element::{attr_value, opt_view, lit_class, lit_id, lit_href, trim, trim_chars, same_name, views};
use crate::md::{split_words, words};
use crate::pseudo::{ascii_lower, eq_ignore_case};
use crate::text::{chars_of, chars_eq, str_eq, has_word};
use crate::traversal::{names_path, str_views};

verus! {

/// The element that node `x` holds, if it is one.
pub open spec fn element_at(t: Tree, x: int) -> Option<Element> {
    if t.valid(x) {
        match t.data(x) {
            NodeData::Element(e) => Some(e),
            _ => None,
        }
    } else {
        None
    }
}

/// The value of attribute `name` of node `x`, if it is an element that has one.
pub open spec fn attr_of(t: Tree, x: int, name: Seq<char>) -> Option<Seq<char>> {
    match element_at(t, x) {
        Some(e) => attr_value(e.attrs@, name),
        None => None,
    }
}

/// `a` and `b` are equal, or equal up to ASCII case when case does not matter.
pub open spec fn same_text(a: Seq<char>, b: Seq<char>, case_sensitive: bool) -> bool {
    if case_sensitive { a == b } else { eq_ignore_case(a, b) }
}

/// One of the whitespace-separated words of `s` is `w`, or is `w` up to ASCII case
/// when case does not matter.
pub open spec fn has_word_like(s: Seq<char>, w: Seq<char>, case_sensitive: bool) -> bool {
    exists|j: int| 0 <= j < words(s).len() && #[trigger] same_text(words(s)[j], w, case_sensitive)
}

/// The namespace of HTML elements.
pub open spec fn html_ns() -> Seq<char> {
    "http://www.w3.org/1999/xhtml"@
}

/// Whether two runs of characters are equal up to the case of ASCII letters.
pub fn chars_eq_ignore_case(a: &[char], b: &[char]) -> (r: bool)
    ensures
        r == eq_ignore_case(a@, b@),
{
    if a.len() != b.len() {
        return false;
    }
    let mut i: usize = 0;
    while i < a.len()
        invariant
            a.len() == b.len(),
            i <= a.len(),
            forall|j: int| 0 <= j < i ==> #[trigger] ascii_lower(a@[j]) == ascii_lower(b@[j]),
        decreases a.len() - i,
    {
        let x = a[i];
        let y = b[i];
        let lx: u32 = if 'A' <= x && x <= 'Z' { x as u32 + 32 } else { x as u32 };
        let ly: u32 = if 'A' <= y && y <= 'Z' { y as u32 + 32 } else { y as u32 };
        if lx != ly {
            assert(ascii_lower(a@[i as int]) != ascii_lower(b@[i as int]));
            return false;
        }
        i = i + 1;
    }
    true
}

fn same_chars(a: &[char], b: &[char], case_sensitive: bool) -> (r: bool)
    ensures
        r == same_text(a@, b@, case_sensitive),
{
    if case_sensitive {
        chars_eq(a, b)
    } else {
        chars_eq_ignore_case(a, b)
    }
}

/// Copies of attributes, in order.
pub fn copy_attrs(attrs: &Vec<Attr>) -> (r: Vec<Attr>)
    ensures
        r@ == attrs@,
{
    let mut out: Vec<Attr> = Vec::new();
    let mut i: usize = 0;
    while i < attrs.len()
        invariant
            i <= attrs.len(),
            out@ == attrs@.take(i as int),
        decreases attrs.len() - i,
    {
        let a = &attrs[i];
        let prefix = match &a.name.prefix {
            Some(p) => Some(p.clone()),
            None => None,
        };
        let copy = Attr {
            name: QualName { prefix, ns: a.name.ns.clone(), local: a.name.local.clone() },
            value: a.value.clone(),
        };
        out.push(copy);
        i = i + 1;
        proof {
            assert(out@ =~= attrs@.take(i as int));
        }
    }
    proof {
        assert(attrs@.take(i as int) =~= attrs@);
    }
    out
}

impl Element {
    /// Whether the class attribute has the word `name`, compared with or without ASCII case.
    pub fn has_class_bytes(&self, name: &str, case_sensitive: bool) -> (r: bool)
        ensures
            r == (attr_value(self.attrs@, lit_class()) matches Some(v) && has_word_like(v, name@, case_sensitive)),
    {
        proof {
            reveal_strlit("class");
            assert("class"@ =~= lit_class());
        }
        match self.attr("class") {
            None => false,
            Some(v) => {
                let ws = split_words(&chars_of(v.as_str()));
                let target = chars_of(name);
                let mut i: usize = 0;
                while i < ws.len()
                    invariant
                        i <= ws.len(),
                        views(ws@) == words(v@),
                        target@ == name@,
                        attr_value(self.attrs@, lit_class()) == Some(v@),
                        forall|j: int| 0 <= j < i ==> !#[trigger] same_text(words(v@)[j], name@, case_sensitive),
                        has_word_like(v@, name@, case_sensitive) == (exists|j: int| 0 <= j < words(v@).len() && #[trigger] same_text(words(v@)[j], name@, case_sensitive)),
                    decreases ws.len() - i,
                {
                    assert(ws@[i as int]@ == words(v@)[i as int]);
                    if same_chars(ws[i].as_slice(), target.as_slice(), case_sensitive) {
                        assert(same_text(words(v@)[i as int], name@, case_sensitive));
                        assert(0 <= i < words(v@).len());
                        assert(exists|j: int| 0 <= j < words(v@).len() && #[trigger] same_text(words(v@)[j], name@, case_sensitive));
                        assert(attr_value(self.attrs@, lit_class()) == Some(v@));
                        return true;
                    }
                    i = i + 1;
                }
                false
            },
        }
    }
}

impl<'a> NodeRef<'a> {
    /// The parent of the node.
    pub fn parent(&self) -> (r: Option<NodeRef<'a>>)
        ensures
            opt_ref(r) == (if self.tree.valid(self.id.value as int) { self.tree.parent(self.id.value as int) } else { None }),
            r matches Some(n) ==> *n.tree == *self.tree,
    {
        self.tree.parent_of(&self.id)
    }

    /// The children of the node, in order.
    pub fn children(&self) -> (r: Vec<NodeRef<'a>>)
        requires
            self.tree.wf(),
        ensures
            ref_ids(r@) == (if self.tree.valid(self.id.value as int) { self.tree.children(self.id.value as int) } else { Seq::empty() }),
    {
        self.tree.children_of(&self.id)
    }

    /// The ancestors of the node, parent first; with `max_depth` `Some(d)`, `d > 0`,
    /// only the nearest `d`.
    pub fn ancestors(&self, max_depth: Option<usize>) -> (r: Vec<NodeRef<'a>>)
        requires
            self.tree.wf(),
        ensures
            ref_ids(r@) == (if self.tree.valid(self.id.value as int) { limited(self.tree.ancestors(self.id.value as int), max_depth) } else { Seq::empty() }),
    {
        self.tree.ancestors_of(&self.id, max_depth)
    }

    /// The descendants of the node in document order, the node itself left out.
    pub fn descendants(&self) -> (r: Vec<NodeRef<'a>>)
        requires
            self.tree.wf(),
        ensures
            ref_ids(r@) == (if self.tree.valid(self.id.value as int) { subtree(*self.tree, self.id.value).drop_first() } else { Seq::empty() }),
    {
        if self.id.value >= self.tree.nodes.len() {
            return Vec::new();
        }
        let mut ids = subtree_ids(self.tree, self.id.value);
        let ghost all = ids@;
        proof {
            assert(subtree(*self.tree, self.id.value).len() > 0);
            assert(ids_of(all).len() > 0);
        }
        ids.remove(0);
        proof {
            assert(ids_of(ids@) =~= ids_of(all).drop_first());
        }
        refs_of(self.tree, &ids)
    }

    /// The first child of the node.
    pub fn first_child(&self) -> (r: Option<NodeRef<'a>>)
        ensures
            opt_ref(r) == (if self.tree.valid(self.id.value as int) { self.tree.first(self.id.value as int) } else { None }),
    {
        self.tree.first_child_of(&self.id)
    }

    /// The last child of the node.
    pub fn last_child(&self) -> (r: Option<NodeRef<'a>>)
        ensures
            opt_ref(r) == (if self.tree.valid(self.id.value as int) { self.tree.last(self.id.value as int) } else { None }),
    {
        self.tree.last_child_of(&self.id)
    }

    /// The next sibling of the node.
    pub fn next_sibling(&self) -> (r: Option<NodeRef<'a>>)
        ensures
            opt_ref(r) == (if self.tree.valid(self.id.value as int) { self.tree.next(self.id.value as int) } else { None }),
    {
        self.tree.next_sibling_of(&self.id)
    }

    /// The previous sibling of the node.
    pub fn prev_sibling(&self) -> (r: Option<NodeRef<'a>>)
        ensures
            opt_ref(r) == (if self.tree.valid(self.id.value as int) { self.tree.prev(self.id.value as int) } else { None }),
    {
        self.tree.prev_sibling_of(&self.id)
    }

    /// The last of the siblings that follow the node; `None` when none follows it.
    pub fn last_sibling(&self) -> (r: Option<NodeRef<'a>>)
        requires
            self.tree.wf(),
        ensures
            opt_ref(r) == (if self.tree.valid(self.id.value as int) && self.tree.index(self.id.value as int) + 1 < self.tree.siblings(self.id.value as int).len() {
                Some(self.tree.siblings(self.id.value as int).last())
            } else {
                None
            }),
    {
        match TreeNodeOps::last_sibling_of(self.tree, &self.id) {
            Some(id) => Some(NodeRef::new(id, self.tree)),
            None => None,
        }
    }

    /// The next sibling of the node that is an element.
    pub fn next_element_sibling(&self) -> (r: Option<NodeRef<'a>>)
        requires
            self.tree.wf(),
        ensures
            opt_ref(r) == (if self.tree.valid(self.id.value as int) {
                first_element_from(self.tree, self.tree.siblings(self.id.value as int), self.tree.index(self.id.value as int) + 1)
            } else {
                None
            }),
    {
        match TreeNodeOps::next_element_sibling_of(self.tree, &self.id) {
            Some(id) => Some(NodeRef::new(id, self.tree)),
            None => None,
        }
    }

    /// The previous sibling of the node that is an element.
    pub fn prev_element_sibling(&self) -> (r: Option<NodeRef<'a>>)
        requires
            self.tree.wf(),
        ensures
            opt_ref(r) == (if self.tree.valid(self.id.value as int) {
                last_element_before(self.tree, self.tree.siblings(self.id.value as int), self.tree.index(self.id.value as int))
            } else {
                None
            }),
    {
        match TreeNodeOps::prev_element_sibling_of(self.tree, &self.id) {
            Some(id) => Some(NodeRef::new(id, self.tree)),
            None => None,
        }
    }

    /// The first child of the node that is an element.
    pub fn first_element_child(&self) -> (r: Option<NodeRef<'a>>)
        requires
            self.tree.wf(),
        ensures
            opt_ref(r) == (if self.tree.valid(self.id.value as int) {
                first_element_from(self.tree, self.tree.children(self.id.value as int), 0)
            } else {
                None
            }),
    {
        match TreeNodeOps::first_element_child_of(self.tree, &self.id) {
            Some(id) => Some(NodeRef::new(id, self.tree)),
            None => None,
        }
    }

    /// The children of the node that are elements, in order.
    pub fn element_children(&self) -> (r: Vec<NodeRef<'a>>)
        requires
            self.tree.wf(),
        ensures
            ref_ids(r@) == (if self.tree.valid(self.id.value as int) {
                self.tree.children(self.id.value as int).filter(|c: usize| self.tree.data(c as int) is Element)
            } else {
                Seq::empty()
            }),
    {
        let tree = self.tree;
        let mut out: Vec<NodeRef<'a>> = Vec::new();
        if self.id.value >= tree.nodes.len() {
            return out;
        }
        let cs = crate::subtree::child_ids(tree, self.id.value);
        let ghost s = tree.children(self.id.value as int);
        let ghost keep = |c: usize| tree.data(c as int) is Element;
        let mut i: usize = 0;
        proof {
            reveal(Seq::filter);
            assert(s.take(0).filter(keep) =~= Seq::<usize>::empty());
        }
        while i < cs.len()
            invariant
                tree.wf(),
                i <= cs.len(),
                ids_of(cs@) == s,
                forall|j: int| 0 <= j < cs@.len() ==> (#[trigger] cs@[j]).value < tree.len(),
                ref_ids(out@) == s.take(i as int).filter(keep),
                keep == (|c: usize| tree.data(c as int) is Element),
            decreases cs.len() - i,
        {
            let c = cs[i];
            proof {
                reveal(Seq::filter);
                assert(s.take(i as int + 1).drop_last() =~= s.take(i as int));
                assert(s.take(i as int + 1).last() == c.value);
            }
            if tree.nodes[c.value].is_element() {
                out.push(NodeRef::new(c, tree));
            }
            i = i + 1;
            proof {
                assert(ref_ids(out@) =~= s.take(i as int).filter(keep));
            }
        }
        proof {
            assert(s.take(i as int) =~= s);
        }
        out
    }

    /// The local name of the node, if it is an element.
    pub fn node_name(&self) -> (r: Option<String>)
        ensures
            opt_view(r) == (match element_at(*self.tree, self.id.value as int) {
                Some(e) => Some(e.name.local@),
                None => None,
            }),
    {
        match self.tree.get_node(&self.id) {
            Some(n) => match n.as_element() {
                Some(e) => Some(e.node_name()),
                None => None,
            },
            None => None,
        }
    }

    /// The value of the `id` attribute.
    pub fn id_attr(&self) -> (r: Option<String>)
        ensures
            opt_view(r) == attr_of(*self.tree, self.id.value as int, lit_id()),
    {
        match self.tree.get_node(&self.id) {
            Some(n) => match n.as_element() {
                Some(e) => e.id(),
                None => None,
            },
            None => None,
        }
    }

    /// The value of the `class` attribute.
    pub fn class(&self) -> (r: Option<String>)
        ensures
            opt_view(r) == attr_of(*self.tree, self.id.value as int, lit_class()),
    {
        match self.tree.get_node(&self.id) {
            Some(n) => match n.as_element() {
                Some(e) => e.class(),
                None => None,
            },
            None => None,
        }
    }

    /// Whether the node is an element with the class `class`.
    pub fn has_class(&self, class: &str) -> (r: bool)
        ensures
            r == (attr_of(*self.tree, self.id.value as int, lit_class()) matches Some(v) && has_word(v, class@, true)),
    {
        match self.tree.get_node(&self.id) {
            Some(n) => match n.as_element() {
                Some(e) => e.has_class(class),
                None => false,
            },
            None => false,
        }
    }

    /// The value of attribute `name`.
    pub fn attr(&self, name: &str) -> (r: Option<String>)
        ensures
            opt_view(r) == attr_of(*self.tree, self.id.value as int, name@),
    {
        match self.tree.get_node(&self.id) {
            Some(n) => match n.as_element() {
                Some(e) => e.attr(name),
                None => None,
            },
            None => None,
        }
    }

    /// The value of attribute `name`, or `default` when there is none.
    pub fn attr_or(&self, name: &str, default: &str) -> (r: String)
        ensures
            r@ == (match attr_of(*self.tree, self.id.value as int, name@) {
                Some(v) => v,
                None => default@,
            }),
    {
        match self.attr(name) {
            Some(v) => v,
            None => default.to_owned(),
        }
    }

    /// The attributes of the node, if it is an element.
    pub fn attrs(&self) -> (r: Vec<Attr>)
        ensures
            r@ == (match element_at(*self.tree, self.id.value as int) {
                Some(e) => e.attrs@,
                None => Seq::empty(),
            }),
    {
        match self.tree.get_node(&self.id) {
            Some(n) => match n.as_element() {
                Some(e) => copy_attrs(&e.attrs),
                None => Vec::new(),
            },
            None => Vec::new(),
        }
    }

    /// Whether the node is an element with attribute `name`.
    pub fn has_attr(&self, name: &str) -> (r: bool)
        ensures
            r == (attr_of(*self.tree, self.id.value as int, name@) is Some),
    {
        match self.tree.get_node(&self.id) {
            Some(n) => match n.as_element() {
                Some(e) => e.has_attr(name),
                None => false,
            },
            None => false,
        }
    }

    /// Whether the node is a document.
    pub fn is_document(&self) -> (r: bool)
        ensures
            r == (self.tree.valid(self.id.value as int) && self.tree.data(self.id.value as int) is Document),
    {
        match self.tree.get_node(&self.id) {
            Some(n) => n.is_document(),
            None => false,
        }
    }

    /// Whether the node is a fragment.
    pub fn is_fragment(&self) -> (r: bool)
        ensures
            r == (self.tree.valid(self.id.value as int) && self.tree.data(self.id.value as int) is Fragment),
    {
        match self.tree.get_node(&self.id) {
            Some(n) => n.is_fragment(),
            None => false,
        }
    }

    /// Whether the node is an element.
    pub fn is_element(&self) -> (r: bool)
        ensures
            r == (self.tree.valid(self.id.value as int) && self.tree.data(self.id.value as int) is Element),
    {
        match self.tree.get_node(&self.id) {
            Some(n) => n.is_element(),
            None => false,
        }
    }

    /// Whether the node is a text node.
    pub fn is_text(&self) -> (r: bool)
        ensures
            r == (self.tree.valid(self.id.value as int) && self.tree.data(self.id.value as int) is Text),
    {
        match self.tree.get_node(&self.id) {
            Some(n) => n.is_text(),
            None => false,
        }
    }

    /// Whether the node is a comment.
    pub fn is_comment(&self) -> (r: bool)
        ensures
            r == (self.tree.valid(self.id.value as int) && self.tree.data(self.id.value as int) is Comment),
    {
        match self.tree.get_node(&self.id) {
            Some(n) => n.is_comment(),
            None => false,
        }
    }

    /// Whether the node is a doctype.
    pub fn is_doctype(&self) -> (r: bool)
        ensures
            r == (self.tree.valid(self.id.value as int) && self.tree.data(self.id.value as int) is Doctype),
    {
        match self.tree.get_node(&self.id) {
            Some(n) => n.is_doctype(),
            None => false,
        }
    }

    /// Whether the node can have children: a document, a fragment or an element.
    pub fn may_have_children(&self) -> (r: bool)
        ensures
            r == (self.tree.valid(self.id.value as int) && (self.tree.data(self.id.value as int) is Document
                || self.tree.data(self.id.value as int) is Fragment || self.tree.data(self.id.value as int) is Element)),
    {
        match self.tree.get_node(&self.id) {
            Some(n) => n.may_have_children(),
            None => false,
        }
    }

    /// The qualified name of the node, if it is an element.
    pub fn qual_name_ref(&self) -> (r: Option<&'a QualName>)
        ensures
            match r {
                Some(n) => element_at(*self.tree, self.id.value as int) matches Some(e) && e.name == *n,
                None => element_at(*self.tree, self.id.value as int) is None,
            },
    {
        self.tree.get_name(&self.id)
    }

    /// The element that the node is, if it is one.
    pub fn element_ref(&self) -> (r: Option<&'a Element>)
        ensures
            match r {
                Some(e) => element_at(*self.tree, self.id.value as int) == Some(*e),
                None => element_at(*self.tree, self.id.value as int) is None,
            },
    {
        match self.tree.get_node(&self.id) {
            Some(n) => n.as_element(),
            None => None,
        }
    }

    /// Whether the node is an element with the local name `name`.
    pub fn has_name(&self, name: &str) -> (r: bool)
        ensures
            r == (element_at(*self.tree, self.id.value as int) matches Some(e) && e.name.local@ == name@),
    {
        match self.element_ref() {
            Some(e) => str_eq(e.name.local.as_str(), name),
            None => false,
        }
    }

    /// Whether the node is a text node with more than whitespace.
    pub fn is_nonempty_text(&self) -> (r: bool)
        ensures
            r == (self.tree.valid(self.id.value as int) && (self.tree.data(self.id.value as int) matches NodeData::Text { contents }
                && trim(contents@).len() > 0)),
    {
        match self.tree.get_node(&self.id) {
            Some(n) => match &n.data {
                NodeData::Text { contents } => {
                    let v = chars_of(contents.as_str());
                    trim_chars(v.as_slice()).len() > 0
                },
                _ => false,
            },
            None => false,
        }
    }

    /// The elements reached from the node by the names of `path`, each searched for
    /// among the descendants of the ones before. Experimental: the form of `path` may change.
    pub fn find(&self, path: &[&str]) -> (r: Vec<NodeRef<'a>>)
        requires
            self.tree.wf(),
        ensures
            ref_ids(r@) == (if self.tree.valid(self.id.value as int) {
                names_path(*self.tree, self.id.value, str_views(path@), path@.len() as int)
            } else {
                Seq::empty()
            }),
    {
        if self.id.value >= self.tree.nodes.len() {
            return Vec::new();
        }
        let ids = crate::traversal::Traversal::find_descendant_elements(self.tree, self.id, path);
        refs_of(self.tree, &ids)
    }

    /// Whether the node is an element whose `id` attribute, any of them, is `name`.
    pub fn has_id(&self, name: &str, case_sensitive: bool) -> (r: bool)
        ensures
            r == (element_at(*self.tree, self.id.value as int) matches Some(e) && exists|j: int| 0 <= j < e.attrs@.len()
                && (#[trigger] e.attrs@[j]).name.local@ == lit_id() && same_text(e.attrs@[j].value@, name@, case_sensitive)),
    {
        let e = match self.element_ref() {
            Some(e) => e,
            None => {
                return false;
            },
        };
        let target = chars_of(name);
        let mut i: usize = 0;
        proof {
            reveal_strlit("id");
            assert("id"@ =~= lit_id());
        }
        while i < e.attrs.len()
            invariant
                i <= e.attrs.len(),
                target@ == name@,
                element_at(*self.tree, self.id.value as int) == Some(*e),
                forall|j: int| 0 <= j < i ==> !((#[trigger] e.attrs@[j]).name.local@ == lit_id()
                    && same_text(e.attrs@[j].value@, name@, case_sensitive)),
            decreases e.attrs.len() - i,
        {
            let a = &e.attrs[i];
            proof {
                reveal_strlit("id");
                assert("id"@ =~= lit_id());
            }
            if str_eq(a.name.local.as_str(), "id") {
                let v = chars_of(a.value.as_str());
                if same_chars(v.as_slice(), target.as_slice(), case_sensitive) {
                    assert(e.attrs@[i as int].name.local@ == lit_id() && same_text(e.attrs@[i as int].value@, name@, case_sensitive));
                    return true;
                }
            }
            i = i + 1;
        }
        false
    }

    /// Whether the node is an element with the local name `local_name`.
    pub fn has_local_name(&self, local_name: &str) -> (r: bool)
        ensures
            r == (element_at(*self.tree, self.id.value as int) matches Some(e) && e.name.local@ == local_name@),
    {
        self.has_name(local_name)
    }

    /// Whether the node is an element in namespace `ns`.
    pub fn has_namespace(&self, ns: &str) -> (r: bool)
        ensures
            r == (element_at(*self.tree, self.id.value as int) matches Some(e) && e.name.ns@ == ns@),
    {
        match self.element_ref() {
            Some(e) => str_eq(e.name.ns.as_str(), ns),
            None => false,
        }
    }

    /// Whether the node is an HTML element.
    pub fn is_html_element_in_html_document(&self) -> (r: bool)
        ensures
            r == (element_at(*self.tree, self.id.value as int) matches Some(e) && e.name.ns@ == html_ns()),
    {
        proof {
            reveal_strlit("http://www.w3.org/1999/xhtml");
        }
        self.has_namespace("http://www.w3.org/1999/xhtml")
    }

    /// Whether this node and `other` are elements with the same qualified name.
    pub fn is_same_type(&self, other: &NodeRef) -> (r: bool)
        ensures
            r == (element_at(*self.tree, self.id.value as int) matches Some(e1)
                && element_at(*other.tree, other.id.value as int) matches Some(e2) && same_name(e1.name, e2.name)),
    {
        match (self.element_ref(), other.element_ref()) {
            (Some(e1), Some(e2)) => crate::element::qual_name_eq(&e1.name, &e2.name),
            _ => false,
        }
    }

    /// The base address of the document: the `href` of `html > head > base`.
    pub fn base_uri(&self) -> (r: Option<String>)
        requires
            self.tree.wf(),
        ensures
            opt_view(r) == self.tree.base_uri_model(),
    {
        self.tree.base_uri()
    }
}

impl Tree {
    /// The base address of a tree: the `href` attribute of the element reached from the
    /// root by `html`, `head`, `base`.
    pub open spec fn base_uri_model(&self) -> Option<Seq<char>> {
        if self.len() > 0 {
            match crate::traversal::follow_path(*self, 0, seq!["html"@, "head"@, "base"@]) {
                Some(b) => attr_of(*self, b as int, lit_href()),
                None => None,
            }
        } else {
            None
        }
    }

    /// The base address of the document: the `href` of `html > head > base`.
    pub fn base_uri(&self) -> (r: Option<String>)
        requires
            self.wf(),
        ensures
            opt_view(r) == self.base_uri_model(),
    {
        let path: [&str; 3] = ["html", "head", "base"];
        let found = crate::traversal::Traversal::find_descendant_element(self, self.root_id(), path.as_slice());
        proof {
            assert(str_views(path@) =~= seq!["html"@, "head"@, "base"@]);
        }
        match found {
            Some(b) => {
                let r = NodeRef::new(b, self);
                proof {
                    reveal_strlit("href");
                    assert("href"@ =~= lit_href());
                }
                r.attr("href")
            },
            None => None,
        }
    }
}

/// The next sibling of `x`, or else of its nearest ancestor that has one.
pub open spec fn next_after_subtree(t: Tree, x: int) -> Option<usize>
    decreases t.depth@[x],
{
    match t.next(x) {
        Some(n) => Some(n),
        None => match t.parent(x) {
            Some(q) => if 0 <= q < t.len() && t.depth@[q as int] < t.depth@[x] { next_after_subtree(t, q as int) } else { None },
            None => None,
        },
    }
}

/// The node that follows `x` in document order: its first child, or else the next
/// sibling of `x` or of its nearest ancestor that has one.
pub open spec fn doc_next(t: Tree, x: int) -> Option<usize> {
    match t.first(x) {
        Some(f) => Some(f),
        None => next_after_subtree(t, x),
    }
}

/// The node that follows node `id` in document order (see [`doc_next`]); the walk is
/// not bounded by any subtree.
pub fn get_child_or_sibling(tree: &Tree, id: &NodeId) -> (r: Option<NodeId>)
    requires
        tree.wf(),
        tree.valid(id.value as int),
    ensures
        crate::node::opt_idx(r) == doc_next(*tree, id.value as int),
{
    let node = &tree.nodes[id.value];
    if node.first_child.is_some() {
        return node.first_child;
    }
    if node.next_sibling.is_some() {
        return node.next_sibling;
    }
    let mut cur = id.value;
    proof {
        assert(crate::tree::node_ok(tree.nodes@, tree.chains@, tree.pos@, tree.depth@, cur as int));
    }
    let mut parent = tree.nodes[cur].parent;
    while parent.is_some()
        invariant
            tree.wf(),
            cur < tree.len(),
            parent == tree.nodes@[cur as int].parent,
            tree.next(cur as int).is_none(),
            tree.first(id.value as int).is_none(),
            next_after_subtree(*tree, id.value as int) == next_after_subtree(*tree, cur as int),
        decreases tree.depth@[cur as int],
    {
        let q = parent.unwrap().value;
        proof {
            assert(crate::tree::node_ok(tree.nodes@, tree.chains@, tree.pos@, tree.depth@, cur as int));
            assert(crate::tree::node_ok(tree.nodes@, tree.chains@, tree.pos@, tree.depth@, q as int));
        }
        let pn = &tree.nodes[q];
        proof {
            assert(next_after_subtree(*tree, cur as int) == next_after_subtree(*tree, q as int));
        }
        if pn.next_sibling.is_some() {
            return pn.next_sibling;
        }
        cur = q;
        parent = pn.parent;
    }
    None
}

} // verus!
