use dom_query::node::{Attr, Element, NodeData, NodeId, QualName};
use dom_query::noderef::NodeRef;
use dom_query::ops::TreeNodeOps;
use dom_query::pseudo::{parse_non_ts_functional_pseudo_class, parse_non_ts_pseudo_class, NonTSPseudoClass, PseudoElement};
use dom_query::subtree::{normalized_char_count, TreeNodeHandler};
use dom_query::text_format::format_text;
use dom_query::tree::Tree;

fn el(tree: &mut Tree, name: &str, attrs: &[(&str, &str)]) -> NodeId {
    let attrs = attrs
        .iter()
        .map(|(k, v)| Attr { name: QualName::local_only(k), value: v.to_string() })
        .collect();
    tree.create_node(NodeData::Element(Element::new(QualName::local_only(name), attrs, None, false)))
}

fn text(tree: &mut Tree, contents: &str) -> NodeId {
    tree.create_node(NodeData::Text { contents: contents.to_string() })
}

fn append(tree: &mut Tree, parent: NodeId, child: NodeId) {
    TreeNodeOps::append_child_of(tree, &parent, &child);
}

fn child_values(tree: &Tree, id: NodeId) -> Vec<usize> {
    TreeNodeOps::child_ids_of(tree, &id).iter().map(|n| n.value).collect()
}

/// `<div><p>Hello <b>big</b> world</p><p>Second</p></div>` under a document root.
fn sample() -> (Tree, [NodeId; 7]) {
    let mut tree = Tree::new(NodeData::Document);
    let root = tree.root_id();
    let div = el(&mut tree, "div", &[]);
    let p1 = el(&mut tree, "p", &[]);
    let t1 = text(&mut tree, "Hello ");
    let b = el(&mut tree, "b", &[]);
    let t2 = text(&mut tree, "big");
    let t3 = text(&mut tree, " world");
    let p2 = el(&mut tree, "p", &[]);
    let t4 = text(&mut tree, "Second");
    append(&mut tree, root, div);
    append(&mut tree, div, p1);
    append(&mut tree, p1, t1);
    append(&mut tree, p1, b);
    append(&mut tree, b, t2);
    append(&mut tree, p1, t3);
    append(&mut tree, div, p2);
    append(&mut tree, p2, t4);
    (tree, [root, div, p1, b, p2, t1, t4])
}

#[test]
fn building_and_moving_nodes() {
    let (mut tree, [root, div, p1, _b, p2, _t1, _t4]) = sample();
    assert_eq!(child_values(&tree, div), vec![p1.value, p2.value]);
    // move the second paragraph before the first one
    TreeNodeOps::insert_before_of(&mut tree, &p1, &p2);
    assert_eq!(child_values(&tree, div), vec![p2.value, p1.value]);
    // and after it again
    TreeNodeOps::insert_after_of(&mut tree, &p1, &p2);
    assert_eq!(child_values(&tree, div), vec![p1.value, p2.value]);
    // prepend makes it the first child
    TreeNodeOps::prepend_child_of(&mut tree, &div, &p2);
    assert_eq!(child_values(&tree, div), vec![p2.value, p1.value]);
    // detached nodes stay in the arena
    TreeNodeOps::remove_from_parent(&mut tree, &p2);
    assert_eq!(child_values(&tree, div), vec![p1.value]);
    assert_eq!(tree.get_node(&p2).unwrap().parent, None);
    assert!(TreeNodeOps::is_valid_node_id(&tree, &p2));
    assert!(!TreeNodeOps::is_valid_node_id(&tree, &NodeId::new(100)));
    // a removed node appended again comes last
    TreeNodeOps::append_child_of(&mut tree, &div, &p2);
    assert_eq!(child_values(&tree, div), vec![p1.value, p2.value]);
    assert_eq!(TreeNodeOps::last_sibling_of(&tree, &p1), Some(p2));
    assert_eq!(TreeNodeOps::next_element_sibling_of(&tree, &p1), Some(p2));
    assert_eq!(TreeNodeOps::prev_element_sibling_of(&tree, &p2), Some(p1));
    assert_eq!(TreeNodeOps::first_element_child_of(&tree, &div), Some(p1));
    // children move together to a new parent
    let section = el(&mut tree, "section", &[]);
    TreeNodeOps::reparent_children_of(&mut tree, &div, Some(section));
    assert_eq!(child_values(&tree, section), vec![p1.value, p2.value]);
    assert_eq!(child_values(&tree, div), Vec::<usize>::new());
    TreeNodeOps::remove_children_of(&mut tree, &section);
    assert_eq!(child_values(&tree, section), Vec::<usize>::new());
    assert_eq!(child_values(&tree, root), vec![div.value]);
    assert!(tree.validate().is_ok());
}

#[test]
fn texts_of_nodes() {
    let (tree, [root, div, p1, b, _p2, t1, t4]) = sample();
    assert_eq!(TreeNodeOps::text_of(&tree, div), "Hello big worldSecond");
    assert_eq!(TreeNodeOps::text_of(&tree, p1), "Hello big world");
    assert_eq!(TreeNodeOps::text_of(&tree, t4), "Second");
    assert_eq!(TreeNodeOps::immediate_text_of(&tree, p1), "Hello  world");
    assert_eq!(TreeNodeHandler::text_of(root, &tree), "Hello big worldSecond");
    assert_eq!(TreeNodeOps::normalized_char_count(&tree, p1), 15);
    assert_eq!(normalized_char_count("  a  b ", true), 4);
    assert_eq!(normalized_char_count("  a  b ", false), 5);
    let desc: Vec<usize> = TreeNodeOps::descendant_ids_of(&tree, &p1).iter().map(|n| n.value).collect();
    assert_eq!(desc, vec![t1.value, b.value, b.value + 1, b.value + 2]);
    let r = NodeRef::new(p1, &tree);
    assert!(r.has_text("big"));
    assert!(!r.has_text("small"));
    assert!(!r.has_only_text());
    assert!(NodeRef::new(b, &tree).has_only_text());
    assert!(!r.is_empty_element());
    assert_eq!(r.text(), "Hello big world");
    assert_eq!(r.immediate_text(), "Hello  world");
}

#[test]
fn formatted_text_of_blocks() {
    let (tree, [root, div, _p1, _b, _p2, _t1, _t4]) = sample();
    assert_eq!(format_text(&tree, &root, false), "Hello big world\n\nSecond");
    assert_eq!(format_text(&tree, &div, true), "Hello big world\n\nSecond\n\n");
    assert_eq!(NodeRef::new(root, &tree).formatted_text(), "Hello big world\n\nSecond");
}

#[test]
fn pseudo_classes() {
    assert!(matches!(parse_non_ts_pseudo_class("ANY-link"), Some(NonTSPseudoClass::AnyLink)));
    assert!(matches!(parse_non_ts_pseudo_class("only-text"), Some(NonTSPseudoClass::OnlyText)));
    assert!(parse_non_ts_pseudo_class("nope").is_none());
    let p = parse_non_ts_functional_pseudo_class("Has-Text", "big").unwrap();
    assert_eq!(p.to_css(), ":has-text(\"big\")");
    let p = parse_non_ts_functional_pseudo_class("contains", "a\"b").unwrap();
    assert_eq!(p.to_css(), ":contains(\"a\\\"b\")");
    assert!(parse_non_ts_functional_pseudo_class("other", "x").is_none());
    assert_eq!(NonTSPseudoClass::Hover.to_css(), ":hover");
    assert_eq!(PseudoElement.to_css(), "");

    let mut tree = Tree::new(NodeData::Document);
    let root = tree.root_id();
    let a = el(&mut tree, "a", &[("href", "/x")]);
    let t = text(&mut tree, "link text");
    let span = el(&mut tree, "span", &[]);
    append(&mut tree, root, a);
    append(&mut tree, a, t);
    append(&mut tree, root, span);
    let ar = NodeRef::new(a, &tree);
    assert!(ar.match_non_ts_pseudo_class(&NonTSPseudoClass::AnyLink));
    assert!(ar.match_non_ts_pseudo_class(&NonTSPseudoClass::OnlyText));
    assert!(ar.match_non_ts_pseudo_class(&NonTSPseudoClass::HasText("text".to_string())));
    assert!(ar.match_non_ts_pseudo_class(&NonTSPseudoClass::Contains("k te".to_string())));
    assert!(!ar.match_non_ts_pseudo_class(&NonTSPseudoClass::Hover));
    let sr = NodeRef::new(span, &tree);
    assert!(!sr.match_non_ts_pseudo_class(&NonTSPseudoClass::Link));
    assert!(sr.is_empty_element());
}

#[test]
fn validating_arenas() {
    let (tree, _) = sample();
    assert!(tree.validate().is_ok());
    // a broken arena: node 1 claims node 0 as its parent, which does not list it
    let mut nodes = tree.nodes.clone();
    nodes[2].parent = Some(NodeId::new(0));
    assert!(dom_query::validate::validate_nodes(&nodes).is_err());
    let mut nodes = tree.nodes.clone();
    nodes[0].parent = Some(NodeId::new(1));
    assert_eq!(
        dom_query::validate::validate_nodes(&nodes).unwrap_err(),
        "Root node (NodeId(0)) must have no parent"
    );
    let mut nodes = tree.nodes.clone();
    nodes[1].next_sibling = Some(NodeId::new(1));
    assert_eq!(
        dom_query::validate::validate_nodes(&nodes).unwrap_err(),
        "next_sibling NodeId { value: 1 } prev_sibling mismatch with NodeId { value: 1 }"
    );
    let mut nodes = tree.nodes.clone();
    nodes[3].parent = Some(NodeId::new(3));
    assert_eq!(
        dom_query::validate::validate_nodes(&nodes).unwrap_err(),
        "first_child's parent does not match node NodeId { value: 2 }"
    );
    let mut nodes = tree.nodes.clone();
    nodes[4].parent = Some(NodeId::new(1));
    assert_eq!(
        dom_query::validate::validate_nodes(&nodes).unwrap_err(),
        "Child NodeId { value: 4 } has incorrect parent, expected NodeId { value: 2 }"
    );
    assert!(dom_query::validate::validate_nodes(&Vec::new()).is_err());
}

/// A parsed fragment: a root, a body, and an html element that holds the content.
fn fragment() -> (Tree, NodeId, NodeId) {
    let mut frag = Tree::new(NodeData::Document);
    let froot = frag.root_id();
    let body = el(&mut frag, "body", &[]);
    let html = el(&mut frag, "html", &[]);
    let x = el(&mut frag, "i", &[]);
    let y = el(&mut frag, "u", &[]);
    append(&mut frag, froot, body);
    append(&mut frag, body, html);
    append(&mut frag, html, x);
    append(&mut frag, html, y);
    (frag, x, y)
}

#[test]
fn merging_fragments() {
    let (mut tree, [_root, div, p1, _b, p2, _t1, _t4]) = sample();
    let before = tree.nodes_len();
    let (frag, x, y) = fragment();
    tree.append_children_from_another_tree(&div, frag);
    assert_eq!(tree.nodes_len(), before + 5);
    assert_eq!(child_values(&tree, div), vec![p1.value, p2.value, before + x.value, before + y.value]);
    assert!(tree.validate().is_ok());

    let before2 = tree.nodes_len();
    let (frag, _, _) = fragment();
    tree.append_prev_siblings_from_another_tree(&p2, frag);
    assert_eq!(
        child_values(&tree, div),
        vec![p1.value, before2 + x.value, before2 + y.value, p2.value, before + x.value, before + y.value]
    );
    assert!(tree.validate().is_ok());
}

#[test]
fn parent_outside_the_arena_is_invalid() {
    let mut tree = Tree::new(NodeData::Document);
    let lone = el(&mut tree, "p", &[]);
    assert!(tree.validate().is_ok());
    let mut nodes = tree.nodes.clone();
    nodes[lone.value].parent = Some(NodeId::new(5));
    assert_eq!(
        dom_query::validate::validate_nodes(&nodes).unwrap_err(),
        "Invalid parent NodeId { value: 5 } reference at node NodeId { value: 1 }"
    );
}

#[test]
fn empty_text_keeps_the_space_before_it() {
    let mut tree = Tree::new(NodeData::Document);
    let root = tree.root_id();
    let div = el(&mut tree, "div", &[]);
    let a = text(&mut tree, "a ");
    let empty = text(&mut tree, "");
    let b = text(&mut tree, " b");
    append(&mut tree, root, div);
    append(&mut tree, div, a);
    append(&mut tree, div, empty);
    append(&mut tree, div, b);
    // the normalized text is "a b"
    assert_eq!(TreeNodeOps::normalized_char_count(&tree, div), 3);
}

#[test]
fn reparenting_appends_after_existing_children() {
    let (mut tree, [_root, div, p1, _b, p2, _t1, _t4]) = sample();
    let section = el(&mut tree, "section", &[]);
    let first = el(&mut tree, "h1", &[]);
    append(&mut tree, section, first);
    TreeNodeOps::reparent_children_of(&mut tree, &div, Some(section));
    assert_eq!(child_values(&tree, section), vec![first.value, p1.value, p2.value]);
    assert_eq!(child_values(&tree, div), Vec::<usize>::new());
    assert_eq!(tree.get_node(&p2).unwrap().parent, Some(section));
    assert!(tree.validate().is_ok());
    // giving the children to the node itself changes nothing
    TreeNodeOps::reparent_children_of(&mut tree, &section, Some(section));
    assert_eq!(child_values(&tree, section), vec![first.value, p1.value, p2.value]);
    assert!(tree.validate().is_ok());
}

/// A parsed fragment whose first top-level element holds an element of its own.
fn nested_fragment() -> (Tree, NodeId, NodeId, NodeId) {
    let (mut frag, x, y) = fragment();
    let z = el(&mut frag, "em", &[]);
    let t = text(&mut frag, "deep");
    append(&mut frag, x, z);
    append(&mut frag, z, t);
    (frag, x, y, z)
}

#[test]
fn merged_fragments_keep_their_inner_structure() {
    let (mut tree, [_root, div, p1, _b, p2, _t1, _t4]) = sample();
    let before = tree.nodes_len();
    let (frag, x, y, z) = nested_fragment();
    tree.append_children_from_another_tree(&div, frag);
    assert_eq!(child_values(&tree, div), vec![p1.value, p2.value, before + x.value, before + y.value]);
    assert_eq!(child_values(&tree, NodeId::new(before + x.value)), vec![before + z.value]);
    assert_eq!(tree.get_node(&NodeId::new(before + z.value)).unwrap().parent, Some(NodeId::new(before + x.value)));
    assert_eq!(TreeNodeOps::text_of(&tree, NodeId::new(before + x.value)), "deep");
    assert!(tree.validate().is_ok());

    let before2 = tree.nodes_len();
    let (frag, x, _y, z) = nested_fragment();
    tree.append_prev_siblings_from_another_tree(&p2, frag);
    assert_eq!(child_values(&tree, NodeId::new(before2 + x.value)), vec![before2 + z.value]);
    assert_eq!(tree.get_node(&NodeId::new(before2 + z.value)).unwrap().parent, Some(NodeId::new(before2 + x.value)));
    assert_eq!(TreeNodeOps::text_of(&tree, NodeId::new(before2 + z.value)), "deep");
    assert!(tree.validate().is_ok());
}

#[test]
fn pseudo_class_arguments_are_escaped() {
    let p = parse_non_ts_functional_pseudo_class("contains", "x\\y").unwrap();
    assert_eq!(p.to_css(), ":contains(\"x\\\\y\")");
    let p = parse_non_ts_functional_pseudo_class("contains", "a\u{1}b\u{1b}c\u{7f}").unwrap();
    assert_eq!(p.to_css(), ":contains(\"a\\1 b\\1b c\\7f \")");
    let p = parse_non_ts_functional_pseudo_class("has-text", "\u{0}é").unwrap();
    assert_eq!(p.to_css(), ":has-text(\"\u{FFFD}é\")");
}

#[test]
fn parent_cycle_names_the_first_node_met_twice() {
    let mut tree = Tree::new(NodeData::Document);
    let a = text(&mut tree, "a");
    let b = text(&mut tree, "b");
    let mut nodes = tree.nodes.clone();
    nodes[a.value].parent = Some(b);
    nodes[b.value].parent = Some(a);
    assert_eq!(
        dom_query::validate::validate_nodes(&nodes).unwrap_err(),
        "Cycle detected in parent chain at node NodeId { value: 1 }"
    );
}

#[test]
fn sibling_outside_the_arena_is_an_invalid_reference() {
    let (tree, [_root, _div, p1, _b, _p2, _t1, _t4]) = sample();
    let mut nodes = tree.nodes.clone();
    nodes[p1.value].next_sibling = Some(NodeId::new(99));
    assert_eq!(
        dom_query::validate::validate_nodes(&nodes).unwrap_err(),
        "Invalid next_sibling reference at node NodeId { value: 99 }"
    );
}

#[test]
fn appending_a_selection_copies_it_to_each_target() {
    let (mut tree, [_root, div, p1, b, p2, t1, t4]) = sample();
    let before = tree.nodes.len();
    tree.append_selection_of(&[p2], &[b]);
    // the bold element left its paragraph
    assert_eq!(child_values(&tree, p1), vec![t1.value, 6]);
    // and a copy of it, with its text, closes the second paragraph
    assert_eq!(child_values(&tree, p2), vec![t4.value, before]);
    assert_eq!(child_values(&tree, NodeId::new(before)), vec![before + 1]);
    assert!(matches!(&tree.nodes[before + 1].data, NodeData::Text { contents } if contents == "big"));
    assert_eq!(child_values(&tree, div), vec![p1.value, p2.value]);
    assert!(tree.validate().is_ok());
}

#[test]
fn appending_an_empty_selection_changes_nothing() {
    let (mut tree, [_root, div, p1, _b, p2, _t1, _t4]) = sample();
    let before = tree.nodes.len();
    tree.append_selection_of(&[p1, p2], &[]);
    assert_eq!(tree.nodes.len(), before);
    assert_eq!(child_values(&tree, div), vec![p1.value, p2.value]);
}

#[test]
fn replacing_with_a_selection_puts_copies_in_place_of_targets() {
    let (mut tree, [_root, div, p1, _b, p2, _t1, _t4]) = sample();
    let before = tree.nodes.len();
    tree.replace_with_selection_of(&[p1], &[p2]);
    assert_eq!(child_values(&tree, div), vec![before]);
    assert_eq!(child_values(&tree, NodeId::new(before)), vec![before + 1]);
    assert!(matches!(&tree.nodes[before + 1].data, NodeData::Text { contents } if contents == "Second"));
    assert!(tree.nodes[p1.value].parent.is_none());
    assert!(tree.nodes[p2.value].parent.is_none());
    assert!(tree.validate().is_ok());
}

#[test]
fn document_text_forwards_to_its_root() {
    let (tree, _) = sample();
    let mut doc = dom_query::sink::Document::default();
    doc.tree = tree;
    assert_eq!(doc.root().id.value, 0);
    assert_eq!(doc.text(), "Hello big worldSecond");
    assert_eq!(doc.formatted_text(), format_text(&doc.tree, &NodeId::new(0), false));
}
