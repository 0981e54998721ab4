use dom_query::edit::NodeIdProver;
use dom_query::minisel::{AttrOperator, AttrValue, Combinator, MiniSelector, parse_mini_selector_at};
use dom_query::minimatch::contains_class;
use dom_query::node::{Attr, Element, NodeData, NodeId, QualName};
use dom_query::noderef::NodeRef;
use dom_query::ops::TreeNodeOps;
use dom_query::pseudo::{eq_ignore_ascii_case, NonTSPseudoClass, PseudoElement};
use dom_query::css_path::parse_single_selector;
use dom_query::subtree::{subtree_ids, TreeNodeHandler};
use dom_query::text::chars_of;
use dom_query::text_format::{adjust_element_offset, elem_require_linebreak};
use dom_query::traversal::Traversal;
use dom_query::tree::Tree;

fn el(tree: &mut Tree, name: &str, attrs: &[(&str, &str)]) -> NodeId {
    let attrs = attrs
        .iter()
        .map(|(k, v)| Attr { name: QualName::local_only(k), value: v.to_string() })
        .collect();
    tree.create_node(NodeData::Element(Element::new(QualName::local_only(name), attrs, None, false)))
}

fn text(tree: &mut Tree, contents: &str) -> NodeId {
    tree.create_node(NodeData::Text { contents: contents.to_string() })
}

fn ids(refs: &[NodeRef]) -> Vec<usize> {
    refs.iter().map(|r| r.id.value).collect()
}

/// `<html><body><div class="a b"><p>one</p><p>two</p></div></body></html>` under a document.
fn page() -> (Tree, [NodeId; 7]) {
    let mut tree = Tree::new(NodeData::Document);
    let root = tree.root_id();
    let html = el(&mut tree, "html", &[]);
    let body = el(&mut tree, "body", &[]);
    let div = el(&mut tree, "div", &[("class", "a b")]);
    let p1 = el(&mut tree, "p", &[]);
    let p2 = el(&mut tree, "p", &[("id", "second")]);
    let t = text(&mut tree, "one");
    tree.append_child_of(&root, &html);
    tree.append_child_of(&html, &body);
    tree.append_child_of(&body, &div);
    tree.append_child_of(&div, &p1);
    tree.append_child_of(&div, &p2);
    tree.append_child_of(&p1, &t);
    (tree, [root, html, body, div, p1, p2, t])
}

#[test]
fn navigating_the_tree() {
    let (tree, [root, html, body, div, p1, p2, t]) = page();
    assert_eq!(tree.root().id, root);
    assert!(tree.get(&div).is_some());
    assert!(tree.get(&NodeId::new(99)).is_none());
    assert_eq!(tree.get_unchecked(&p1).id, p1);
    assert_eq!(tree.get_name(&div).map(|n| n.local.clone()), Some("div".to_string()));
    assert!(tree.get_name(&t).is_none());
    assert!(tree.get_name(&root).is_none());

    assert_eq!(tree.ancestor_ids_of(&t, None), vec![p1, div, body, html, root]);
    assert_eq!(tree.ancestor_ids_of(&t, Some(2)), vec![p1, div]);
    assert_eq!(tree.ancestor_ids_of(&t, Some(0)), vec![p1, div, body, html, root]);
    assert!(tree.ancestor_ids_of(&root, None).is_empty());
    assert_eq!(ids(&tree.ancestors_of(&p2, Some(1))), vec![div.value]);

    assert_eq!(tree.child_ids_of(&div), vec![p1, p2]);
    assert_eq!(ids(&tree.children_of(&div)), vec![p1.value, p2.value]);
    assert!(tree.child_ids_of(&NodeId::new(42)).is_empty());
    assert_eq!(tree.parent_of(&p1).map(|r| r.id), Some(div));
    assert!(tree.parent_of(&root).is_none());
    assert_eq!(tree.first_child_of(&div).map(|r| r.id), Some(p1));
    assert_eq!(tree.last_child_of(&div).map(|r| r.id), Some(p2));
    assert!(tree.first_child_of(&t).is_none());
    assert_eq!(tree.next_sibling_of(&p1).map(|r| r.id), Some(p2));
    assert!(tree.next_sibling_of(&p2).is_none());
    assert_eq!(tree.prev_sibling_of(&p2).map(|r| r.id), Some(p1));
    assert!(tree.prev_sibling_of(&p1).is_none());
    assert_eq!(tree.get_new_id(), NodeId::new(tree.nodes_len()));

    let all: Vec<usize> = subtree_ids(&tree, div.value).iter().map(|n| n.value).collect();
    assert_eq!(all, vec![div.value, p1.value, t.value, p2.value]);

    assert_eq!(p1.node_id(), p1);
    assert_eq!(NodeRef::new(p2, &tree).node_id(), p2);
}

#[test]
fn traversal_by_names() {
    let (tree, [root, html, body, div, p1, _p2, _t]) = page();
    assert_eq!(Traversal::find_child_element_by_name(&tree, root, "html"), Some(html));
    assert_eq!(Traversal::find_child_element_by_name(&tree, root, "body"), None);
    assert_eq!(Traversal::find_child_element_by_name(&tree, div, "p"), Some(p1));
    assert_eq!(Traversal::find_descendant_element(&tree, root, &["html", "body", "div"]), Some(div));
    assert_eq!(Traversal::find_descendant_element(&tree, root, &[]), Some(root));
    assert_eq!(Traversal::find_descendant_element(&tree, root, &["html", "head"]), None);
    assert_eq!(Traversal::find_descendant_element(&tree, NodeId::new(77), &[]), None);
    assert_eq!(Traversal::find_descendant_elements(&tree, html, &["body", "div"]), vec![div]);
    let _ = body;
}

#[test]
fn creating_and_editing_nodes() {
    let (mut tree, [_root, _html, _body, div, p1, p2, t]) = page();
    let n = tree.nodes_len();
    let e = tree.new_element("em");
    assert_eq!(e, NodeId::new(n));
    assert_eq!(tree.get_name(&e).map(|q| q.local.clone()), Some("em".to_string()));
    let tx = tree.new_text("hey");
    assert_eq!(tx, NodeId::new(n + 1));
    assert!(tree.get_node(&tx).map_or(false, |x| x.is_text()));
    assert!(tree.parent_of(&tx).is_none());

    tree.append_child_data_of(&p2, NodeData::Text { contents: "two".to_string() });
    assert_eq!(tree.child_ids_of(&p2), vec![NodeId::new(n + 2)]);
    assert_eq!(NodeRef::new(p2, &tree).text(), "two");
    TreeNodeOps::append_child_data_of(&mut tree, &NodeId::new(1000), NodeData::Comment { contents: "c".to_string() });
    assert!(tree.parent_of(&NodeId::new(n + 3)).is_none());

    TreeNodeOps::set_text(&mut tree, &div, "plain");
    let kids = tree.child_ids_of(&div);
    assert_eq!(kids.len(), 1);
    assert_eq!(NodeRef::new(div, &tree).text(), "plain");
    assert!(tree.parent_of(&p1).is_none());
    TreeNodeOps::set_text(&mut tree, &t, "changed");
    assert_eq!(NodeRef::new(p1, &tree).text(), "changed");

    tree.append_prev_sibling_of(&kids[0], &e);
    assert_eq!(tree.child_ids_of(&div), vec![e, kids[0]]);
    TreeNodeHandler::remove_from_parent(&e, &mut tree);
    assert_eq!(tree.child_ids_of(&div), vec![kids[0]]);
    assert!(tree.parent_of(&e).is_none());
    tree.remove_from_parent(&kids[0]);
    assert!(tree.child_ids_of(&div).is_empty());
}

#[test]
fn merging_trees() {
    let (mut tree, _) = page();
    let before = tree.nodes_len();
    let mut other = Tree::new(NodeData::Fragment);
    let x = el(&mut other, "x", &[]);
    let root = other.root_id();
    other.append_child_of(&root, &x);
    let off = tree.merge(other);
    assert_eq!(off, before);
    assert_eq!(tree.nodes_len(), before + 2);
    assert_eq!(tree.child_ids_of(&NodeId::new(off)), vec![NodeId::new(off + x.value)]);
    assert!(tree.validate().is_ok());
}

#[test]
fn matching_single_nodes() {
    let (tree, [_root, _html, _body, div, p1, p2, _t]) = page();
    assert!(contains_class("a b c", "b"));
    assert!(!contains_class("a bc", "b"));
    let exact = AttrValue { op: AttrOperator::Equals, value: "second".to_string() };
    assert!(exact.is_match("second"));
    assert!(!exact.is_match("seconds"));
    let prefix = AttrValue { op: AttrOperator::Prefix, value: "sec".to_string() };
    assert!(prefix.is_match("second"));

    let sel = MiniSelector::new("p#second").unwrap();
    assert!(sel.match_tree_node(tree.get_node(&p2).unwrap()));
    assert!(!sel.match_tree_node(tree.get_node(&p1).unwrap()));
    assert!(NodeRef::new(p2, &tree).mini_match(&sel));
    let dsel = MiniSelector::new("div.a.b").unwrap();
    assert!(NodeRef::new(div, &tree).mini_match(&dsel));

    let input = chars_of("x > p.c");
    let (s, end) = parse_mini_selector_at(&input, 1).unwrap();
    assert_eq!(s.name, None);
    assert_eq!(s.combinator, Combinator::Child);
    assert_eq!(end, 4);
    let (s, end) = parse_mini_selector_at(&input, 4).unwrap();
    assert_eq!(s.name.as_deref(), Some("p"));
    assert_eq!(s.classes, Some(vec!["c".to_string()]));
    assert_eq!(end, 7);
    let (step, stop) = parse_single_selector(&chars_of("div#x rest"), 0).unwrap();
    assert_eq!(step.name.as_deref(), Some("div"));
    assert_eq!(step.id.as_deref(), Some("x"));
    assert!(stop >= 5);
}

#[test]
fn text_layout_helpers() {
    assert!(elem_require_linebreak(&QualName::local_only("p")));
    assert!(!elem_require_linebreak(&QualName::local_only("span")));
    let mut s = String::from("line  ");
    adjust_element_offset(&mut s, &QualName::local_only("div"));
    assert_eq!(s, "line\n\n");
    adjust_element_offset(&mut s, &QualName::local_only("div"));
    assert_eq!(s, "line\n\n");
    let mut s = String::from("row ");
    adjust_element_offset(&mut s, &QualName::local_only("br"));
    assert_eq!(s, "row\n");
    let mut s = String::from("cell");
    adjust_element_offset(&mut s, &QualName::local_only("td"));
    assert_eq!(s, "cell ");
    let mut s = String::new();
    adjust_element_offset(&mut s, &QualName::local_only("p"));
    assert_eq!(s, "");
}

#[test]
fn pseudo_class_flags() {
    assert!(eq_ignore_ascii_case("HoVeR", "hover"));
    assert!(!eq_ignore_ascii_case("hover", "hovers"));
    assert!(!NonTSPseudoClass::Hover.is_active_or_hover());
    assert!(!NonTSPseudoClass::Active.is_active_or_hover());
    assert!(!NonTSPseudoClass::Focus.is_user_action_state());
    assert!(!NonTSPseudoClass::Link.is_user_action_state());
    assert!(!PseudoElement.accepts_state_pseudo_classes());
    assert!(!PseudoElement.valid_after_slotted());
}

#[test]
fn finding_children_and_querying_nodes() {
    let (tree, [root, html, _body, div, p1, p2, t]) = page();
    let has_id = |n: &dom_query::node::TreeNode| n.as_element().map_or(false, |e| e.attrs.iter().any(|a| a.value == "second"));
    assert_eq!(Traversal::find_child_element(&tree, div, has_id), Some(p2));
    assert_eq!(Traversal::find_child_element(&tree, div, |_| true), Some(p1));
    assert_eq!(Traversal::find_child_element(&tree, div, |_| false), None);
    // text children are never offered
    assert_eq!(Traversal::find_child_element(&tree, p1, |_| true), None);
    assert_eq!(Traversal::find_child_element(&tree, NodeId::new(99), |_| true), None);

    assert_eq!(tree.query_node(&p1, |n| n.is_element()), Some(true));
    assert_eq!(tree.query_node(&t, |n| n.is_element()), Some(false));
    assert_eq!(tree.query_node(&NodeId::new(99), |n| n.is_element()), None);
    assert_eq!(tree.query_node_or(&NodeId::new(99), 7, |_| 1), 7);
    assert_eq!(tree.query_node_or(&html, 7, |_| 1), 1);
    assert_eq!(tree.compare_node(&root, &html, |a, b| a.id.value < b.id.value), Some(true));
    assert_eq!(tree.compare_node(&root, &NodeId::new(99), |_, _| true), None);
}
