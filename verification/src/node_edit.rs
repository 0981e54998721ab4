//! Edits of one element of the tree: its attributes, its classes, its name.
use vstd::prelude::*;
use crate::node::{NodeId, NodeData, TreeNode, Element, Attr};
use crate::tree::Tree;
use crate::edit::{data_replaced, lemma_data_replaced_wf};
use crate::element::{attr_index, value_replaced, attr_pushed, named, trim, lit_class, add_words, class_words, join_words};

verus! {

/// An edit keeps an element's template contents and its MathML flag.
pub open spec fn extras_kept(e0: Element, e1: Element) -> bool {
    &&& e1.template_contents == e0.template_contents
    &&& e1.mathml_annotation_xml_integration_point == e0.mathml_annotation_xml_integration_point
}

/// `e1` is `e0` with attribute `name` set to `val`: the first one of that name
/// changes its value, or a new one comes last.
pub open spec fn attr_set(e0: Element, e1: Element, name: Seq<char>, val: Seq<char>) -> bool {
    &&& extras_kept(e0, e1)
    &&& e1.name == e0.name
    &&& match attr_index(e0.attrs@, name) {
        Some(j) => value_replaced(e0.attrs@, e1.attrs@, j, val),
        None => attr_pushed(e0.attrs@, e1.attrs@, name, val),
    }
}

/// `e1` is `e0` without the attributes named `name`.
pub open spec fn attr_removed(e0: Element, e1: Element, name: Seq<char>) -> bool {
    &&& extras_kept(e0, e1)
    &&& e1.name == e0.name
    &&& e1.attrs@ == e0.attrs@.filter(|a: Attr| !named(a, name))
}

/// `e1` is `e0` keeping only the attributes whose names are in `names` (`keep`) or
/// not in it (`!keep`).
pub open spec fn attrs_filtered(e0: Element, e1: Element, names: Seq<Seq<char>>, keep: bool) -> bool {
    &&& extras_kept(e0, e1)
    &&& e1.name == e0.name
    &&& e1.attrs@ == e0.attrs@.filter(|a: Attr| names.contains(a.name.local@) == keep)
}

/// `e1` is `e0` without attributes.
pub open spec fn attrs_cleared(e0: Element, e1: Element) -> bool {
    &&& extras_kept(e0, e1)
    &&& e1.name == e0.name
    &&& e1.attrs@ == Seq::<Attr>::empty()
}

/// `e1` is `e0` renamed to the local name `name`, with no prefix or namespace.
pub open spec fn renamed(e0: Element, e1: Element, name: Seq<char>) -> bool {
    &&& extras_kept(e0, e1)
    &&& e1.name.prefix.is_none()
    &&& e1.name.ns@ == Seq::<char>::empty()
    &&& e1.name.local@ == name
    &&& e1.attrs == e0.attrs
}

/// `e1` is `e0` with the words of `classes` added to its class attribute.
pub open spec fn class_added(e0: Element, e1: Element, classes: Seq<char>) -> bool {
    &&& extras_kept(e0, e1)
    &&& e1.name == e0.name
    &&& trim(classes).len() == 0 ==> e1.attrs@ == e0.attrs@
    &&& trim(classes).len() > 0 ==> match attr_index(e0.attrs@, lit_class()) {
        Some(j) => value_replaced(e0.attrs@, e1.attrs@, j, add_words(e0.attrs@[j].value@, class_words(classes))),
        None => attr_pushed(e0.attrs@, e1.attrs@, lit_class(), join_words(class_words(classes))),
    }
}

/// `e1` is `e0` with the words of `class` taken out of its class attribute.
pub open spec fn class_removed(e0: Element, e1: Element, class: Seq<char>) -> bool {
    &&& extras_kept(e0, e1)
    &&& e1.name == e0.name
    &&& trim(class).len() == 0 ==> e1.attrs@ == e0.attrs@
    &&& trim(class).len() > 0 ==> match attr_index(e0.attrs@, lit_class()) {
        Some(j) => value_replaced(e0.attrs@, e1.attrs@, j, join_words(
            class_words(e0.attrs@[j].value@).filter(|w: Seq<char>| !class_words(class).contains(w)),
        )),
        None => e1.attrs@ == e0.attrs@,
    }
}

/// `u` is `t` with the element at `x` changed as `rel` says; a node that is no element,
/// or an id out of the tree, leaves the tree as it is.
pub open spec fn element_edited(t: Tree, u: Tree, x: int, rel: spec_fn(Element, Element) -> bool) -> bool {
    &&& u.wf()
    &&& !(t.valid(x) && t.data(x) is Element) ==> u == t
    &&& t.valid(x) ==> (t.data(x) matches NodeData::Element(e0) ==> {
        &&& u.data(x) matches NodeData::Element(e1) && rel(e0, e1)
        &&& u.len() == t.len()
        &&& forall|i: int| 0 <= i < t.len() && i != x ==> #[trigger] u.data(i) == t.data(i)
        &&& forall|m: int| 0 <= m < t.len() ==> #[trigger] u.parent(m) == t.parent(m)
        &&& forall|m: int| 0 <= m < t.len() ==> #[trigger] u.siblings(m) == t.siblings(m)
        &&& forall|q: int| 0 <= q < t.len() ==> #[trigger] u.children(q) == t.children(q)
    })
}

proof fn lemma_element_edited(t: Tree, u: Tree, x: int, rel: spec_fn(Element, Element) -> bool)
    requires
        t.wf(),
        0 <= x < t.len(),
        t.data(x) is Element,
        u.nodes@.len() == t.nodes@.len(),
        u.chains@ == t.chains@,
        u.pos@ == t.pos@,
        u.depth@ == t.depth@,
        u.nodes@[x] == (TreeNode { data: u.nodes@[x].data, ..t.nodes@[x] }),
        forall|i: int| 0 <= i < t.len() && i != x ==> #[trigger] u.nodes@[i] == t.nodes@[i],
        t.data(x) matches NodeData::Element(e0) ==> (u.data(x) matches NodeData::Element(e1) && rel(e0, e1)),
    ensures
        element_edited(t, u, x, rel),
{
    assert(data_replaced(t, u, x, u.nodes@[x].data));
    lemma_data_replaced_wf(t, u, x, u.nodes@[x].data);
    assert forall|q: int| 0 <= q < t.len() implies #[trigger] u.children(q) == t.children(q) by {
        assert(u.nodes@[q].first_child == t.nodes@[q].first_child);
    }
}

impl Tree {
    /// Sets attribute `name` of element `id` to `val`.
    pub fn set_attr_of(&mut self, id: &NodeId, name: &str, val: &str)
        requires
            old(self).wf(),
        ensures
            element_edited(*old(self), *final(self), id.value as int, |e0: Element, e1: Element| attr_set(e0, e1, name@, val@)),
    {
        let x = id.value;
        if x >= self.nodes.len() || !self.nodes[x].is_element() {
            return;
        }
        let ghost t0 = *self;
        match &mut self.nodes[x].data {
            NodeData::Element(e) => e.set_attr(name, val),
            _ => {},
        }
        proof {
            lemma_element_edited(t0, *self, x as int, |e0: Element, e1: Element| attr_set(e0, e1, name@, val@));
        }
    }

    /// Removes the attributes named `name` from element `id`.
    pub fn remove_attr_of(&mut self, id: &NodeId, name: &str)
        requires
            old(self).wf(),
        ensures
            element_edited(*old(self), *final(self), id.value as int, |e0: Element, e1: Element| attr_removed(e0, e1, name@)),
    {
        let x = id.value;
        if x >= self.nodes.len() || !self.nodes[x].is_element() {
            return;
        }
        let ghost t0 = *self;
        match &mut self.nodes[x].data {
            NodeData::Element(e) => e.remove_attr(name),
            _ => {},
        }
        proof {
            lemma_element_edited(t0, *self, x as int, |e0: Element, e1: Element| attr_removed(e0, e1, name@));
        }
    }

    /// Removes from element `id` the attributes whose names are in `names`.
    pub fn remove_attrs_of(&mut self, id: &NodeId, names: &[&str])
        requires
            old(self).wf(),
        ensures
            element_edited(*old(self), *final(self), id.value as int,
                |e0: Element, e1: Element| attrs_filtered(e0, e1, names@.map_values(|n: &str| n@), false)),
    {
        let x = id.value;
        if x >= self.nodes.len() || !self.nodes[x].is_element() {
            return;
        }
        let ghost t0 = *self;
        match &mut self.nodes[x].data {
            NodeData::Element(e) => e.remove_attrs(names),
            _ => {},
        }
        proof {
            lemma_element_edited(t0, *self, x as int,
                |e0: Element, e1: Element| attrs_filtered(e0, e1, names@.map_values(|n: &str| n@), false));
        }
    }

    /// Keeps on element `id` only the attributes whose names are in `names`.
    pub fn retain_attrs_of(&mut self, id: &NodeId, names: &[&str])
        requires
            old(self).wf(),
        ensures
            element_edited(*old(self), *final(self), id.value as int,
                |e0: Element, e1: Element| attrs_filtered(e0, e1, names@.map_values(|n: &str| n@), true)),
    {
        let x = id.value;
        if x >= self.nodes.len() || !self.nodes[x].is_element() {
            return;
        }
        let ghost t0 = *self;
        match &mut self.nodes[x].data {
            NodeData::Element(e) => e.retain_attrs(names),
            _ => {},
        }
        proof {
            lemma_element_edited(t0, *self, x as int,
                |e0: Element, e1: Element| attrs_filtered(e0, e1, names@.map_values(|n: &str| n@), true));
        }
    }

    /// Removes all attributes of element `id`.
    pub fn remove_all_attrs_of(&mut self, id: &NodeId)
        requires
            old(self).wf(),
        ensures
            element_edited(*old(self), *final(self), id.value as int, |e0: Element, e1: Element| attrs_cleared(e0, e1)),
    {
        let x = id.value;
        if x >= self.nodes.len() || !self.nodes[x].is_element() {
            return;
        }
        let ghost t0 = *self;
        match &mut self.nodes[x].data {
            NodeData::Element(e) => e.remove_all_attrs(),
            _ => {},
        }
        proof {
            lemma_element_edited(t0, *self, x as int, |e0: Element, e1: Element| attrs_cleared(e0, e1));
        }
    }

    /// Renames element `id`.
    pub fn rename_of(&mut self, id: &NodeId, name: &str)
        requires
            old(self).wf(),
        ensures
            element_edited(*old(self), *final(self), id.value as int, |e0: Element, e1: Element| renamed(e0, e1, name@)),
    {
        let x = id.value;
        if x >= self.nodes.len() || !self.nodes[x].is_element() {
            return;
        }
        let ghost t0 = *self;
        match &mut self.nodes[x].data {
            NodeData::Element(e) => e.rename(name),
            _ => {},
        }
        proof {
            lemma_element_edited(t0, *self, x as int, |e0: Element, e1: Element| renamed(e0, e1, name@));
        }
    }

    /// Adds the words of `class` to the class attribute of element `id`.
    pub fn add_class_of(&mut self, id: &NodeId, class: &str)
        requires
            old(self).wf(),
        ensures
            element_edited(*old(self), *final(self), id.value as int, |e0: Element, e1: Element| class_added(e0, e1, class@)),
    {
        let x = id.value;
        if x >= self.nodes.len() || !self.nodes[x].is_element() {
            return;
        }
        let ghost t0 = *self;
        match &mut self.nodes[x].data {
            NodeData::Element(e) => e.add_class(class),
            _ => {},
        }
        proof {
            lemma_element_edited(t0, *self, x as int, |e0: Element, e1: Element| class_added(e0, e1, class@));
        }
    }

    /// Takes the words of `class` out of the class attribute of element `id`.
    pub fn remove_class_of(&mut self, id: &NodeId, class: &str)
        requires
            old(self).wf(),
        ensures
            element_edited(*old(self), *final(self), id.value as int, |e0: Element, e1: Element| class_removed(e0, e1, class@)),
    {
        let x = id.value;
        if x >= self.nodes.len() || !self.nodes[x].is_element() {
            return;
        }
        let ghost t0 = *self;
        match &mut self.nodes[x].data {
            NodeData::Element(e) => e.remove_class(class),
            _ => {},
        }
        proof {
            lemma_element_edited(t0, *self, x as int, |e0: Element, e1: Element| class_removed(e0, e1, class@));
        }
    }
}

} // verus!
