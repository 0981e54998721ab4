use dom_query::node::{Attr, Element, NodeData, NodeId, QualName};
use dom_query::noderef::NodeRef;
use dom_query::ops::TreeNodeOps;
use dom_query::serial::{SerializableNodeRef, SerializeStep, TraversalScope};
use dom_query::sink::{append_to_existing_text, Document, NodeOrText, QuirksMode};
use dom_query::tree::Tree;
use dom_query::node::TreeNode;

fn el(tree: &mut Tree, name: &str) -> NodeId {
    tree.create_node(NodeData::Element(Element::new(QualName::local_only(name), Vec::new(), None, false)))
}

fn text(tree: &mut Tree, contents: &str) -> NodeId {
    tree.create_node(NodeData::Text { contents: contents.to_string() })
}

fn kids(tree: &Tree, id: NodeId) -> Vec<usize> {
    tree.child_ids_of(&id).iter().map(|n| n.value).collect()
}

/// `<div><p>a</p><!--c--><br></div>` under a document root.
fn small() -> (Tree, [NodeId; 6]) {
    let mut tree = Tree::new(NodeData::Document);
    let root = tree.root_id();
    let div = el(&mut tree, "div");
    let p = el(&mut tree, "p");
    let a = text(&mut tree, "a");
    let c = tree.create_node(NodeData::Comment { contents: "c".to_string() });
    let br = el(&mut tree, "br");
    tree.append_child_of(&root, &div);
    tree.append_child_of(&div, &p);
    tree.append_child_of(&p, &a);
    tree.append_child_of(&div, &c);
    tree.append_child_of(&div, &br);
    (tree, [root, div, p, a, c, br])
}

#[test]
fn serialization_steps() {
    let (tree, [root, div, p, a, c, br]) = small();
    let steps = SerializableNodeRef(NodeRef::new(div, &tree)).serialize(TraversalScope::IncludeNode);
    assert_eq!(
        steps,
        vec![
            SerializeStep::StartElem(div),
            SerializeStep::StartElem(p),
            SerializeStep::Text(a),
            SerializeStep::EndElem(p),
            SerializeStep::Comment(c),
            SerializeStep::StartElem(br),
            SerializeStep::EndElem(br),
            SerializeStep::EndElem(div),
        ]
    );
    let inner = SerializableNodeRef(NodeRef::new(div, &tree)).serialize(TraversalScope::ChildrenOnly);
    assert_eq!(inner.len(), steps.len() - 2);
    assert_eq!(inner[0], SerializeStep::StartElem(p));
    // the document node writes nothing of its own
    let whole = SerializableNodeRef(NodeRef::new(root, &tree)).serialize(TraversalScope::IncludeNode);
    assert_eq!(whole, steps);
    let none = SerializableNodeRef(NodeRef::new(NodeId::new(50), &tree)).serialize(TraversalScope::IncludeNode);
    assert!(none.is_empty());
}

#[test]
fn moving_chains_of_siblings() {
    let (mut tree, [_root, div, p, _a, c, br]) = small();
    let holder = el(&mut tree, "section");
    // the comment and the br move to the end of the section
    TreeNodeOps::append_children_of(&mut tree, &holder, &c);
    assert_eq!(kids(&tree, div), vec![p.value]);
    assert_eq!(kids(&tree, holder), vec![c.value, br.value]);
    // and back, before the paragraph
    TreeNodeOps::insert_siblings_before(&mut tree, &p, &c);
    assert_eq!(kids(&tree, div), vec![c.value, br.value, p.value]);
    assert!(kids(&tree, holder).is_empty());
    // within one chain: the br and the paragraph go before the comment
    TreeNodeOps::insert_siblings_before(&mut tree, &c, &br);
    assert_eq!(kids(&tree, div), vec![br.value, p.value, c.value]);
    assert!(tree.validate().is_ok());
}

#[test]
fn unwrapping_and_wrapping() {
    let (mut tree, [_root, div, p, a, c, br]) = small();
    // the comment and the br leave the div, which keeps the paragraph
    tree.unwrap_node(&c);
    let root = tree.root_id();
    assert_eq!(kids(&tree, root), vec![c.value, br.value]);
    assert_eq!(kids(&tree, div), vec![p.value]);
    assert!(tree.parent_of(&div).is_none());
    // a text node whose parent is no element stays
    let before = kids(&tree, root);
    tree.unwrap_node(&br);
    assert_eq!(kids(&tree, root), before);

    let w = el(&mut tree, "em");
    tree.wrap_node(&a, &w);
    assert_eq!(kids(&tree, p), vec![w.value]);
    assert_eq!(kids(&tree, w), vec![a.value]);
    assert!(tree.validate().is_ok());
}

#[test]
fn parser_sink_builds_and_merges() {
    let mut doc = Document::default();
    assert_eq!(doc.get_document(), NodeId::new(0));
    let html = doc.create_element(QualName::local_only("html"), Vec::new(), false, false);
    let root = doc.get_document();
    doc.append(&root, NodeOrText::AppendNode(html));
    doc.append(&html, NodeOrText::AppendText("Hello".to_string()));
    doc.append(&html, NodeOrText::AppendText(", world".to_string()));
    let ids = doc.tree.child_ids_of(&html);
    assert_eq!(ids.len(), 1);
    assert_eq!(NodeRef::new(html, &doc.tree).text(), "Hello, world");

    let b = doc.create_element(QualName::local_only("b"), vec![Attr { name: QualName::local_only("x"), value: "1".to_string() }], false, false);
    doc.append(&html, NodeOrText::AppendNode(b));
    doc.append_before_sibling(&b, NodeOrText::AppendText("!".to_string()));
    assert_eq!(doc.tree.child_ids_of(&html).len(), 2);
    assert_eq!(NodeRef::new(html, &doc.tree).text(), "Hello, world!");
    doc.append_before_sibling(&ids[0], NodeOrText::AppendText("> ".to_string()));
    assert_eq!(doc.tree.child_ids_of(&html).len(), 3);
    assert_eq!(NodeRef::new(html, &doc.tree).text(), "> Hello, world!");

    let tpl = doc.create_element(QualName::local_only("template"), Vec::new(), true, false);
    assert_eq!(doc.get_template_contents(&tpl), NodeId::new(tpl.value - 1));
    assert_eq!(doc.elem_name(&tpl).local, "template");
    assert!(doc.same_node(&tpl, &tpl) && !doc.same_node(&tpl, &b));

    doc.add_attrs_if_missing(&b, vec![
        Attr { name: QualName::local_only("x"), value: "2".to_string() },
        Attr { name: QualName::local_only("y"), value: "3".to_string() },
    ]);
    let names: Vec<String> = doc.tree.get_node(&b).unwrap().as_element().unwrap().attrs.iter().map(|a| a.value.clone()).collect();
    assert_eq!(names, vec!["1", "3"]);

    let cm = doc.create_comment("note".to_string());
    let pi = doc.create_pi("xml".to_string(), "v".to_string());
    doc.append_based_on_parent_node(&b, &html, NodeOrText::AppendNode(cm));
    assert_eq!(doc.tree.parent_of(&cm).map(|r| r.id), Some(html));
    doc.append_based_on_parent_node(&pi, &b, NodeOrText::AppendText("in b".to_string()));
    assert_eq!(NodeRef::new(b, &doc.tree).text(), "in b");

    doc.append_doctype_to_document("html".to_string(), String::new(), String::new());
    assert!(doc.tree.get_node(&doc.tree.child_ids_of(&root)[1]).unwrap().is_doctype());

    let target = doc.create_element(QualName::local_only("i"), Vec::new(), false, false);
    doc.reparent_children(&b, &target);
    assert!(doc.tree.child_ids_of(&b).is_empty());
    assert_eq!(doc.tree.child_ids_of(&target).len(), 1);
    doc.remove_from_parent(&b);
    assert!(doc.tree.parent_of(&b).is_none());

    doc.parse_error("oops".to_string());
    doc.set_quirks_mode(QuirksMode::Quirks);
    assert_eq!(doc.errors, vec!["oops".to_string()]);
    assert_eq!(doc.quirks_mode, QuirksMode::Quirks);
    assert!(doc.tree.validate().is_ok());

    let frag = Document::fragment_sink();
    assert!(frag.tree.get_node(&NodeId::new(0)).unwrap().is_fragment());
}

#[test]
fn appending_to_text_nodes() {
    let mut t = TreeNode::new(NodeId::new(3), NodeData::Text { contents: "ab".to_string() });
    assert!(append_to_existing_text(&mut t, "cd"));
    match &t.data {
        NodeData::Text { contents } => assert_eq!(contents, "abcd"),
        _ => panic!("not text"),
    }
    let mut e = TreeNode::new(NodeId::new(4), NodeData::Comment { contents: "x".to_string() });
    assert!(!append_to_existing_text(&mut e, "cd"));
}

#[test]
fn inserting_after_and_prepending() {
    let (mut tree, [_root, div, p, a, c, br]) = small();
    let holder = el(&mut tree, "section");
    let first = el(&mut tree, "h1");
    tree.append_child_of(&holder, &first);
    // the comment and the br go after the heading
    TreeNodeOps::insert_siblings_after(&mut tree, &first, &c);
    assert_eq!(kids(&tree, holder), vec![first.value, c.value, br.value]);
    assert_eq!(kids(&tree, div), vec![p.value]);
    // within one chain: the br goes just after the heading
    TreeNodeOps::insert_siblings_after(&mut tree, &first, &br);
    assert_eq!(kids(&tree, holder), vec![first.value, br.value, c.value]);
    // all the children of the section go in front of the paragraph's text
    TreeNodeOps::prepend_children_of(&mut tree, &p, &br);
    assert_eq!(kids(&tree, p), vec![first.value, br.value, c.value, a.value]);
    assert!(kids(&tree, holder).is_empty());
    // for an id out of the tree, the nodes form a chain of their own
    TreeNodeOps::insert_siblings_after(&mut tree, &NodeId::new(99), &br);
    assert_eq!(kids(&tree, p), vec![first.value]);
    assert_eq!(tree.next_sibling_of(&br).map(|n| n.id), Some(c));
    assert_eq!(tree.next_sibling_of(&c).map(|n| n.id), Some(a));
    assert!(tree.parent_of(&br).is_none());
    assert!(tree.validate().is_ok());
}

#[test]
fn parser_reparenting_appends_to_existing_children() {
    let mut doc = Document::default();
    let root = doc.get_document();
    let html = doc.create_element(QualName::local_only("html"), Vec::new(), false, false);
    doc.append(&root, NodeOrText::AppendNode(html));
    let from = doc.create_element(QualName::local_only("a"), Vec::new(), false, false);
    let to = doc.create_element(QualName::local_only("b"), Vec::new(), false, false);
    doc.append(&html, NodeOrText::AppendNode(from));
    doc.append(&html, NodeOrText::AppendNode(to));
    let c1 = doc.create_element(QualName::local_only("i"), Vec::new(), false, false);
    let c2 = doc.create_element(QualName::local_only("u"), Vec::new(), false, false);
    let d1 = doc.create_element(QualName::local_only("em"), Vec::new(), false, false);
    doc.append(&from, NodeOrText::AppendNode(c1));
    doc.append(&from, NodeOrText::AppendNode(c2));
    doc.append(&to, NodeOrText::AppendNode(d1));
    doc.reparent_children(&from, &to);
    assert!(doc.tree.child_ids_of(&from).is_empty());
    assert_eq!(doc.tree.child_ids_of(&to), vec![d1, c1, c2]);
    assert_eq!(doc.tree.parent_of(&c2).map(|r| r.id), Some(to));
    assert!(doc.tree.validate().is_ok());
}

#[test]
fn children_only_is_each_child_in_turn() {
    let (tree, [_root, div, _p, _a, _c, _br]) = small();
    let inner = SerializableNodeRef(NodeRef::new(div, &tree)).serialize(TraversalScope::ChildrenOnly);
    let mut each = Vec::new();
    for c in tree.child_ids_of(&div) {
        each.extend(SerializableNodeRef(NodeRef::new(c, &tree)).serialize(TraversalScope::IncludeNode));
    }
    assert_eq!(inner, each);
}
