use dom_query::node::{Attr, Element, NodeData, NodeId, QualName};
use dom_query::node_api::{chars_eq_ignore_case, copy_attrs};
use dom_query::noderef::NodeRef;
use dom_query::text::chars_of;
use dom_query::tree::Tree;

fn el(tree: &mut Tree, name: &str, attrs: &[(&str, &str)]) -> NodeId {
    let attrs = attrs
        .iter()
        .map(|(k, v)| Attr { name: QualName::local_only(k), value: v.to_string() })
        .collect();
    tree.create_node(NodeData::Element(Element::new(QualName::local_only(name), attrs, None, false)))
}

fn ids(refs: &[NodeRef]) -> Vec<usize> {
    refs.iter().map(|r| r.id.value).collect()
}

/// `<html><head><base href="/b/"></head><body><ul class="Nav list"><li id="x">a</li>text<li>b</li></ul></body></html>`
fn page() -> (Tree, [NodeId; 9]) {
    let mut tree = Tree::new(NodeData::Document);
    let root = tree.root_id();
    let html = el(&mut tree, "html", &[]);
    let head = el(&mut tree, "head", &[]);
    let base = el(&mut tree, "base", &[("href", "/b/")]);
    let body = el(&mut tree, "body", &[]);
    let ul = el(&mut tree, "ul", &[("class", "Nav list")]);
    let li1 = el(&mut tree, "li", &[("id", "x")]);
    let t = tree.create_node(NodeData::Text { contents: "text".to_string() });
    let li2 = el(&mut tree, "li", &[]);
    tree.append_child_of(&root, &html);
    tree.append_child_of(&html, &head);
    tree.append_child_of(&head, &base);
    tree.append_child_of(&html, &body);
    tree.append_child_of(&body, &ul);
    tree.append_child_of(&ul, &li1);
    tree.append_child_of(&ul, &t);
    tree.append_child_of(&ul, &li2);
    tree.append_child_data_of(&li1, NodeData::Text { contents: "a".to_string() });
    tree.append_child_data_of(&li2, NodeData::Text { contents: "b".to_string() });
    (tree, [root, html, head, base, body, ul, li1, t, li2])
}

#[test]
fn node_ref_navigation() {
    let (tree, [root, html, _head, _base, body, ul, li1, t, li2]) = page();
    let r = NodeRef::new(ul, &tree);
    assert_eq!(r.parent().map(|p| p.id), Some(body));
    assert_eq!(ids(&r.children()), vec![li1.value, t.value, li2.value]);
    assert_eq!(ids(&r.element_children()), vec![li1.value, li2.value]);
    assert_eq!(ids(&r.ancestors(None)), vec![body.value, html.value, root.value]);
    assert_eq!(ids(&r.ancestors(Some(1))), vec![body.value]);
    assert_eq!(r.descendants().len(), 5);
    assert_eq!(r.descendants()[0].id, li1);
    assert_eq!(r.first_child().map(|n| n.id), Some(li1));
    assert_eq!(r.last_child().map(|n| n.id), Some(li2));
    assert_eq!(r.first_element_child().map(|n| n.id), Some(li1));
    let first = NodeRef::new(li1, &tree);
    assert_eq!(first.next_sibling().map(|n| n.id), Some(t));
    assert_eq!(first.next_element_sibling().map(|n| n.id), Some(li2));
    assert_eq!(first.last_sibling().map(|n| n.id), Some(li2));
    assert!(NodeRef::new(li2, &tree).last_sibling().is_none());
    assert_eq!(NodeRef::new(li2, &tree).prev_element_sibling().map(|n| n.id), Some(li1));
    assert_eq!(NodeRef::new(t, &tree).prev_sibling().map(|n| n.id), Some(li1));
    assert_eq!(ids(&NodeRef::new(root, &tree).find(&["html", "body", "ul"])), vec![ul.value]);
    assert_eq!(NodeRef::new(root, &tree).base_uri(), Some("/b/".to_string()));
    assert_eq!(tree.base_uri(), Some("/b/".to_string()));
}

#[test]
fn node_ref_attributes_and_kinds() {
    let (tree, [root, _html, _head, _base, _body, ul, li1, t, li2]) = page();
    let r = NodeRef::new(ul, &tree);
    assert_eq!(r.node_name(), Some("ul".to_string()));
    assert_eq!(NodeRef::new(t, &tree).node_name(), None);
    assert_eq!(r.class(), Some("Nav list".to_string()));
    assert!(r.has_class("list") && !r.has_class("nav"));
    assert_eq!(NodeRef::new(li1, &tree).id_attr(), Some("x".to_string()));
    assert_eq!(r.attr("class"), Some("Nav list".to_string()));
    assert_eq!(r.attr_or("title", "none"), "none");
    assert!(r.has_attr("class") && !r.has_attr("id"));
    assert_eq!(r.attrs().len(), 1);
    assert!(NodeRef::new(li2, &tree).attrs().is_empty());
    assert!(NodeRef::new(root, &tree).is_document());
    assert!(r.is_element() && !r.is_text() && !r.is_comment() && !r.is_doctype() && !r.is_fragment());
    assert!(NodeRef::new(t, &tree).is_text() && NodeRef::new(t, &tree).is_nonempty_text());
    assert!(r.may_have_children() && !NodeRef::new(t, &tree).may_have_children());
    assert!(r.has_name("ul") && !r.has_name("ol"));
    assert_eq!(r.qual_name_ref().map(|q| q.local.clone()), Some("ul".to_string()));
    assert!(r.element_ref().is_some() && NodeRef::new(t, &tree).element_ref().is_none());

    // the tests of a selector engine
    assert!(NodeRef::new(li1, &tree).has_id("x", true));
    assert!(NodeRef::new(li1, &tree).has_id("X", false));
    assert!(!NodeRef::new(li1, &tree).has_id("X", true));
    assert!(r.has_local_name("ul"));
    assert!(r.has_namespace(""));
    assert!(!r.is_html_element_in_html_document());
    assert!(NodeRef::new(li1, &tree).is_same_type(&NodeRef::new(li2, &tree)));
    assert!(!r.is_same_type(&NodeRef::new(li2, &tree)));
    let e = r.element_ref().unwrap();
    assert!(e.has_class_bytes("nav", false));
    assert!(!e.has_class_bytes("nav", true));
    assert!(e.has_class_bytes("Nav", true));
    assert!(chars_eq_ignore_case(&chars_of("AbC"), &chars_of("aBc")));
    assert!(!chars_eq_ignore_case(&chars_of("ab"), &chars_of("abc")));
    assert_eq!(copy_attrs(&e.attrs).len(), 1);
}

#[test]
fn editing_elements_in_the_tree() {
    let (mut tree, [_root, _html, _head, _base, _body, ul, li1, t, li2]) = page();
    tree.set_attr_of(&li2, "title", "second");
    assert_eq!(NodeRef::new(li2, &tree).attr("title"), Some("second".to_string()));
    tree.add_class_of(&li2, "on");
    tree.add_class_of(&li2, "off on");
    assert_eq!(NodeRef::new(li2, &tree).class(), Some("on off".to_string()));
    tree.remove_class_of(&li2, "on");
    assert_eq!(NodeRef::new(li2, &tree).class(), Some("off".to_string()));
    tree.remove_attr_of(&li2, "title");
    assert!(!NodeRef::new(li2, &tree).has_attr("title"));
    tree.set_attr_of(&li1, "a", "1");
    tree.set_attr_of(&li1, "b", "2");
    tree.retain_attrs_of(&li1, &["a", "b"]);
    assert_eq!(NodeRef::new(li1, &tree).attrs().len(), 2);
    tree.remove_attrs_of(&li1, &["a"]);
    assert_eq!(NodeRef::new(li1, &tree).attr("b"), Some("2".to_string()));
    tree.remove_all_attrs_of(&li1);
    assert!(NodeRef::new(li1, &tree).attrs().is_empty());
    tree.rename_of(&ul, "ol");
    assert_eq!(NodeRef::new(ul, &tree).node_name(), Some("ol".to_string()));
    // a text node has no attributes to edit
    tree.set_attr_of(&t, "x", "y");
    assert!(!NodeRef::new(t, &tree).has_attr("x"));
    assert!(tree.validate().is_ok());
}
