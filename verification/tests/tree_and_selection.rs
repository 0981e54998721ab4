use dom_query::node::{Attr, NodeId, QualName};
use dom_query::noderef::NodeRef;
use dom_query::selection::Selection;
use dom_query::sink::{Document, NodeOrText};
use dom_query::tree::Tree;

fn element(doc: &mut Document, parent: NodeId, name: &str, id: Option<&str>) -> NodeId {
    let attrs = match id {
        Some(v) => vec![Attr { name: QualName::local_only("id"), value: v.to_string() }],
        None => Vec::new(),
    };
    let e = doc.create_element(QualName::local_only(name), attrs, false, false);
    doc.append(&parent, NodeOrText::AppendNode(e));
    e
}

/// The tree a parser builds of
/// `<!DOCTYPE html><html><head><title>Test</title></head><body><div>
/// <p id="first-child">foo</p><p id="last-child">bar</p></div></body></html>`.
fn contents() -> Document {
    let mut doc = Document::default();
    let root = doc.get_document();
    doc.append_doctype_to_document("html".to_string(), String::new(), String::new());
    let html = element(&mut doc, root, "html", None);
    let head = element(&mut doc, html, "head", None);
    let title = element(&mut doc, head, "title", None);
    doc.append(&title, NodeOrText::AppendText("Test".to_string()));
    let body = element(&mut doc, html, "body", None);
    let div = element(&mut doc, body, "div", None);
    let first = element(&mut doc, div, "p", Some("first-child"));
    doc.append(&first, NodeOrText::AppendText("foo".to_string()));
    let last = element(&mut doc, div, "p", Some("last-child"));
    doc.append(&last, NodeOrText::AppendText("bar".to_string()));
    doc
}

fn by_id(tree: &Tree, id: &str) -> Option<NodeId> {
    let root = tree.root();
    root.descendants().into_iter().find(|n| n.id_attr().as_deref() == Some(id)).map(|n| n.id)
}

fn by_name(tree: &Tree, name: &str) -> Vec<NodeId> {
    let root = tree.root();
    root.descendants().into_iter().filter(|n| n.node_name().as_deref() == Some(name)).map(|n| n.id).collect()
}

fn child_id_attrs(tree: &Tree, parent: NodeId) -> Vec<String> {
    NodeRef::new(parent, tree).element_children().iter().map(|n| n.id_attr().unwrap_or_default()).collect()
}

#[test]
fn test_tree_get() {
    let doc = contents();
    let tree = &doc.tree;
    // root node 0 always exists
    assert!(tree.get(&NodeId::new(0)).is_some());
    // within 0..total_nodes.len() range all nodes are accessible
    let total_nodes = tree.nodes_len();
    assert!(tree.get(&NodeId::new(total_nodes - 1)).is_some());

    assert!(tree.get(&NodeId::new(total_nodes)).is_none());
}

#[test]
fn test_ancestors_of() {
    let doc = contents();
    let tree = &doc.tree;

    let last_child = by_id(tree, "last-child").unwrap();
    let ancestors = tree.ancestor_ids_of(&last_child, None);
    let elder_id = ancestors[ancestors.len() - 1];
    // the eldest ancestor is document root, which is not an element node
    assert_eq!(elder_id, NodeId::new(0));

    let elder_node = tree.get(&elder_id).unwrap();
    assert!(elder_node.node_name().is_none());
    assert!(elder_node.is_document());
}

#[test]
fn test_child_ids_of() {
    let mut doc = contents();
    let parent = by_name(&doc.tree, "div")[0];
    for child_id in doc.tree.child_ids_of(&parent) {
        doc.tree.remove_from_parent(&child_id);
    }
    let root = doc.tree.root();
    let left: Vec<String> = root.descendants().iter().filter_map(|n| n.id_attr()).collect();
    assert!(left.is_empty());
}

#[test]
fn test_prepend_child_of() {
    let mut doc = contents();
    let parent = by_name(&doc.tree, "div")[0];

    let new_node = doc.tree.new_element("p");
    doc.tree.set_attr_of(&new_node, "id", "oops");

    doc.tree.prepend_child_of(&parent, &new_node);
    assert_eq!(child_id_attrs(&doc.tree, parent), vec!["oops", "first-child", "last-child"]);
    assert!(doc.tree.validate().is_ok());
}

#[test]
fn test_append_prev_sibling_of() {
    let mut doc = contents();
    let last_child = by_id(&doc.tree, "last-child").unwrap();
    let parent = by_name(&doc.tree, "div")[0];

    let new_node = doc.tree.new_element("p");
    doc.tree.set_attr_of(&new_node, "id", "second-child");

    doc.tree.append_prev_sibling_of(&last_child, &new_node);
    assert_eq!(child_id_attrs(&doc.tree, parent), vec!["first-child", "second-child", "last-child"]);
    assert!(doc.tree.validate().is_ok());
}

fn sel<'a>(tree: &'a Tree, ids: &[NodeId]) -> Selection<'a> {
    Selection::from_nodes(ids.iter().map(|id| NodeRef::new(*id, tree)).collect())
}

fn values(s: &Selection) -> Vec<usize> {
    s.nodes().iter().map(|n| n.id.value).collect()
}

#[test]
fn selection_navigation() {
    let doc = contents();
    let tree = &doc.tree;
    let first = by_id(tree, "first-child").unwrap();
    let last = by_id(tree, "last-child").unwrap();
    let div = by_name(tree, "div")[0];
    let body = by_name(tree, "body")[0];
    let html = by_name(tree, "html")[0];

    let both = sel(tree, &[first, last]);
    // one parent for both paragraphs
    assert_eq!(values(&both.parent()), vec![div.value]);
    assert_eq!(values(&sel(tree, &[div]).children()), vec![first.value, last.value]);
    // element ancestors only, each once
    assert_eq!(values(&both.ancestors(None)), vec![div.value, body.value, html.value]);
    assert_eq!(values(&both.ancestors(Some(2))), vec![div.value, body.value]);
    assert_eq!(values(&both.next_sibling()), vec![last.value]);
    assert_eq!(values(&both.prev_sibling()), vec![first.value]);
    let empty = sel(tree, &[]);
    assert!(empty.parent().is_empty() && empty.children().is_empty());
    assert_eq!(both.length(), 2);
    assert_eq!(both.size(), 2);
    assert!(both.has_nodes() && !empty.has_nodes());
    assert_eq!(values(&both.first()), vec![first.value]);
    assert_eq!(values(&both.last()), vec![last.value]);
    assert!(empty.first().is_empty());
    assert_eq!(both.get(1).map(|n| n.id), Some(last));
    assert!(both.get(2).is_none());
}

#[test]
fn selection_sets() {
    let doc = contents();
    let tree = &doc.tree;
    let first = by_id(tree, "first-child").unwrap();
    let last = by_id(tree, "last-child").unwrap();
    let div = by_name(tree, "div")[0];

    let a = sel(tree, &[first, div]);
    let b = sel(tree, &[div, last]);
    assert_eq!(values(&a.add_selection(&b)), vec![first.value, div.value, last.value]);
    assert_eq!(values(&a.filter_selection(&b)), vec![div.value]);
    // an empty side keeps everything
    assert_eq!(values(&a.filter_selection(&sel(tree, &[]))), vec![first.value, div.value]);
    assert!(a.is_selection(&b));
    assert!(!sel(tree, &[first]).is_selection(&sel(tree, &[last])));

    let mut cursor = b.iter();
    assert_eq!(cursor.next().map(|s| values(&s)), Some(vec![div.value]));
    assert_eq!(cursor.next_back().map(|s| values(&s)), Some(vec![last.value]));
    assert!(cursor.next().is_none());
    assert!(cursor.next_back().is_none());
}

#[test]
fn selection_text_and_attributes() {
    let doc = contents();
    let tree = &doc.tree;
    let first = by_id(tree, "first-child").unwrap();
    let last = by_id(tree, "last-child").unwrap();
    let div = by_name(tree, "div")[0];

    let both = sel(tree, &[first, last]);
    assert_eq!(both.text(), "foobar");
    assert_eq!(sel(tree, &[div]).text(), "foobar");
    assert_eq!(sel(tree, &[div]).immediate_text(), "");
    assert_eq!(both.immediate_text(), "foobar");
    // the node itself is included, so nothing is trimmed after it
    assert_eq!(sel(tree, &[div]).formatted_text(), "foo\n\nbar\n\n");
    assert_eq!(both.id().as_deref(), Some("first-child"));
    assert_eq!(both.attr("id").as_deref(), Some("first-child"));
    assert!(both.has_attr("id"));
    assert!(!sel(tree, &[div]).has_attr("id"));
    assert_eq!(sel(tree, &[div]).attr_or("id", "none"), "none");
    assert_eq!(both.attrs().len(), 1);
    assert!(both.class().is_none());
    assert!(!both.has_class("x"));
}

fn attr_of(tree: &Tree, id: NodeId, name: &str) -> Option<String> {
    NodeRef::new(id, tree).attr(name)
}

#[test]
fn editing_every_node_of_a_selection() {
    let mut doc = contents();
    let first = by_id(&doc.tree, "first-child").unwrap();
    let last = by_id(&doc.tree, "last-child").unwrap();
    let div = by_name(&doc.tree, "div")[0];
    let text = doc.tree.child_ids_of(&first)[0];
    let ids = sel(&doc.tree, &[first, last, first, text]).node_ids();
    assert_eq!(ids, vec![first, last, first, text]);

    doc.tree.set_attr_of_nodes(&ids, "lang", "en");
    assert_eq!(attr_of(&doc.tree, first, "lang").as_deref(), Some("en"));
    assert_eq!(attr_of(&doc.tree, last, "lang").as_deref(), Some("en"));
    // the repeated id is edited once
    assert_eq!(NodeRef::new(first, &doc.tree).attrs().len(), 2);
    assert!(attr_of(&doc.tree, div, "lang").is_none());

    doc.tree.add_class_of_nodes(&ids, "a b");
    doc.tree.add_class_of_nodes(&ids, "b c");
    assert_eq!(attr_of(&doc.tree, first, "class").as_deref(), Some("a b c"));
    doc.tree.remove_class_of_nodes(&ids, "b");
    assert_eq!(attr_of(&doc.tree, last, "class").as_deref(), Some("a c"));

    doc.tree.retain_attrs_of_nodes(&ids, &["id", "class"]);
    assert!(attr_of(&doc.tree, first, "lang").is_none());
    assert_eq!(attr_of(&doc.tree, first, "id").as_deref(), Some("first-child"));
    doc.tree.remove_attrs_of_nodes(&ids, &["class"]);
    assert!(attr_of(&doc.tree, last, "class").is_none());
    doc.tree.remove_attr_of_nodes(&ids, "id");
    assert!(attr_of(&doc.tree, last, "id").is_none());
    doc.tree.set_attr_of_nodes(&ids, "x", "1");
    doc.tree.remove_all_attrs_of_nodes(&ids);
    assert!(NodeRef::new(first, &doc.tree).attrs().is_empty());

    doc.tree.rename_nodes(&ids, "span");
    assert_eq!(NodeRef::new(first, &doc.tree).node_name().as_deref(), Some("span"));
    assert_eq!(NodeRef::new(last, &doc.tree).node_name().as_deref(), Some("span"));
    // the text node is no element and stays as it was
    assert_eq!(NodeRef::new(text, &doc.tree).text(), "foo");
    assert!(doc.tree.validate().is_ok());
}

#[test]
fn removing_every_node_of_a_selection() {
    let mut doc = contents();
    let first = by_id(&doc.tree, "first-child").unwrap();
    let last = by_id(&doc.tree, "last-child").unwrap();
    let div = by_name(&doc.tree, "div")[0];
    let ids = sel(&doc.tree, &[first, first, last, NodeId::new(500)]).node_ids();
    doc.tree.remove_nodes(&ids);
    assert!(doc.tree.child_ids_of(&div).is_empty());
    assert!(doc.tree.parent_of(&first).is_none());
    assert!(doc.tree.parent_of(&last).is_none());
    // the removed nodes keep their own children
    assert_eq!(NodeRef::new(first, &doc.tree).text(), "foo");
    assert!(doc.tree.validate().is_ok());
}

#[test]
fn normalizing_merges_text_nodes() {
    // `<div>Hello</div>`, then " ", "World" and "" appended to the div
    let mut doc = Document::default();
    let root = doc.get_document();
    let div = element(&mut doc, root, "div", None);
    doc.append(&div, NodeOrText::AppendText("Hello".to_string()));
    for t in [" ", "World", ""] {
        let id = doc.tree.new_text(t);
        doc.tree.append_child_of(&div, &id);
    }
    assert_eq!(doc.tree.child_ids_of(&div).len(), 4);
    doc.normalize();
    assert_eq!(doc.tree.child_ids_of(&div).len(), 1);
    assert_eq!(NodeRef::new(div, &doc.tree).text(), "Hello World");
    assert!(doc.tree.validate().is_ok());
}

#[test]
fn normalizing_drops_empty_runs_and_reaches_below() {
    let mut doc = Document::default();
    let root = doc.get_document();
    let div = element(&mut doc, root, "div", None);
    let p = element(&mut doc, div, "p", None);
    let b = element(&mut doc, div, "b", None);
    for t in ["", ""] {
        let id = doc.tree.new_text(t);
        doc.tree.insert_before_of(&b, &id);
    }
    for t in ["a", "b", "c"] {
        let id = doc.tree.new_text(t);
        doc.tree.append_child_of(&p, &id);
    }
    let comment = doc.create_comment("c".to_string());
    doc.tree.append_child_of(&div, &comment);
    let lone = doc.tree.new_text("x");
    doc.tree.append_child_of(&comment, &lone);
    let lone2 = doc.tree.new_text("y");
    doc.tree.append_child_of(&comment, &lone2);
    // normalizing the paragraph alone touches nothing else
    doc.tree.normalize_of(&p);
    assert_eq!(doc.tree.child_ids_of(&p).len(), 1);
    assert_eq!(NodeRef::new(p, &doc.tree).text(), "abc");
    assert_eq!(doc.tree.child_ids_of(&div).len(), 5);
    doc.tree.normalize();
    // the empty run between p and b goes; a comment's children are not reached
    let kids: Vec<NodeId> = doc.tree.child_ids_of(&div);
    assert_eq!(kids, vec![p, b, comment]);
    assert_eq!(doc.tree.child_ids_of(&comment).len(), 2);
    assert!(doc.tree.validate().is_ok());
}

#[test]
fn normalized_children_have_no_adjacent_or_empty_texts() {
    let mut doc = Document::default();
    let root = doc.get_document();
    let div = element(&mut doc, root, "div", None);
    let br = element(&mut doc, div, "br", None);
    for t in ["a", "", "b"] {
        let id = doc.tree.new_text(t);
        doc.tree.insert_before_of(&br, &id);
    }
    for t in ["", "c"] {
        let id = doc.tree.new_text(t);
        doc.tree.append_child_of(&div, &id);
    }
    doc.normalize();
    let kids = doc.tree.child_ids_of(&div);
    assert_eq!(kids.len(), 3);
    assert_eq!(kids[1], br);
    assert_eq!(NodeRef::new(kids[0], &doc.tree).text(), "ab");
    assert_eq!(NodeRef::new(kids[2], &doc.tree).text(), "c");
}

#[test]
fn stripping_elements_keeps_their_children() {
    // <div><b>x<i>y</i></b><p><b>z</b></p><!--c--></div>
    let mut doc = Document::default();
    let root = doc.get_document();
    let div = element(&mut doc, root, "div", None);
    let b1 = element(&mut doc, div, "b", None);
    doc.append(&b1, NodeOrText::AppendText("x".to_string()));
    let i = element(&mut doc, b1, "i", None);
    doc.append(&i, NodeOrText::AppendText("y".to_string()));
    let p = element(&mut doc, div, "p", None);
    let b2 = element(&mut doc, p, "b", None);
    doc.append(&b2, NodeOrText::AppendText("z".to_string()));
    let x_text = doc.tree.child_ids_of(&b1)[0];
    let z_text = doc.tree.child_ids_of(&b2)[0];
    let y_text = doc.tree.child_ids_of(&i)[0];

    doc.tree.strip_elements_of(&div, &["b"]);
    assert_eq!(doc.tree.child_ids_of(&div), vec![x_text, i, p]);
    assert_eq!(doc.tree.child_ids_of(&p), vec![z_text]);
    assert!(doc.tree.parent_of(&b1).is_none() && doc.tree.parent_of(&b2).is_none());
    assert!(doc.tree.child_ids_of(&b1).is_empty());
    assert_eq!(NodeRef::new(div, &doc.tree).text(), "xyz");
    assert!(doc.tree.validate().is_ok());

    // no names: nothing changes
    doc.tree.strip_elements_of(&div, &[]);
    assert_eq!(doc.tree.child_ids_of(&div), vec![x_text, i, p]);
    // nested elements of the same name go too, and the node itself stays
    doc.tree.strip_elements_of(&div, &["i", "p", "div"]);
    assert_eq!(doc.tree.child_ids_of(&div), vec![x_text, y_text, z_text]);
    assert_eq!(NodeRef::new(div, &doc.tree).text(), "xyz");
    assert!(doc.tree.validate().is_ok());
}

#[test]
fn filtering_by_flags() {
    let doc = contents();
    let tree = &doc.tree;
    let first = by_id(tree, "first-child").unwrap();
    let last = by_id(tree, "last-child").unwrap();
    let div = by_name(tree, "div")[0];
    let s = sel(tree, &[first, div, last]);
    assert_eq!(values(&s.filter_flags(&vec![true, false, true])), vec![first.value, last.value]);
    assert!(s.filter_flags(&vec![false, false, false]).is_empty());
}

#[test]
fn copying_nodes_and_fragments() {
    let mut doc = contents();
    let div = by_name(&doc.tree, "div")[0];
    let n = doc.tree.nodes_len();
    let below = NodeRef::new(div, &doc.tree).descendants().len();
    let copy = doc.tree.copy_node_within(&div);
    assert_eq!(copy.value, n);
    // the copy takes one new node for the div and one for each node below it
    assert_eq!(doc.tree.nodes_len(), n + 1 + below);
    assert!(doc.tree.parent_of(&copy).is_none());
    assert_eq!(NodeRef::new(copy, &doc.tree).text(), "foobar");
    assert_eq!(doc.tree.child_ids_of(&copy).len(), 2);
    assert!(doc.tree.validate().is_ok());

    let other = contents();
    let mut target = Document::default();
    let c2 = target.tree.copy_node(&other.tree, &by_id(&other.tree, "last-child").unwrap());
    assert_eq!(NodeRef::new(c2, &target.tree).attr("id").as_deref(), Some("last-child"));
    let out = target.tree.copy_node(&other.tree, &NodeId::new(999));
    assert_eq!(out.value, target.tree.nodes_len());

    let frag = NodeRef::new(div, &doc.tree).to_fragment();
    let html = frag.tree.child_ids_of(&NodeId::new(0));
    assert_eq!(html, vec![NodeId::new(2)]);
    let inner = frag.tree.child_ids_of(&NodeId::new(2));
    assert_eq!(inner, vec![NodeId::new(3)]);
    assert_eq!(NodeRef::new(NodeId::new(3), &frag.tree).text(), "foobar");
    let whole = NodeRef::new(NodeId::new(0), &doc.tree).to_fragment();
    assert_eq!(whole.tree.nodes_len(), doc.tree.nodes_len());
}
