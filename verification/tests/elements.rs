use dom_query::element::{class_words_of, find_attr, join_chars, qual_name_eq, split_spaces, trim_chars, contains_chars};
use dom_query::node::{fix_id, Attr, Element, NodeData, NodeId, QualName, TreeNode};
use dom_query::text::{
    chars_contains, chars_ends_with, chars_eq, chars_of, chars_starts_with, contains_word, is_ascii_alphanumeric,
    is_ascii_whitespace, is_whitespace, matches_at, push_str, sep, str_eq, string_from,
};

fn attr(name: &str, value: &str) -> Attr {
    Attr { name: QualName::local_only(name), value: value.to_string() }
}

fn element(name: &str, attrs: &[(&str, &str)]) -> Element {
    Element::new(QualName::local_only(name), attrs.iter().map(|(k, v)| attr(k, v)).collect(), None, false)
}

fn names(e: &Element) -> Vec<String> {
    e.attrs.iter().map(|a| a.name.local.clone()).collect()
}

#[test]
fn element_attributes() {
    let mut e = element("div", &[("id", "main"), ("class", "a b"), ("title", "t")]);
    assert_eq!(e.node_name(), "div");
    assert_eq!(e.id(), Some("main".to_string()));
    assert_eq!(e.class(), Some("a b".to_string()));
    assert_eq!(e.attr("title"), Some("t".to_string()));
    assert_eq!(e.attr("lang"), None);
    assert!(e.has_attr("title"));
    assert!(!e.has_attr("lang"));
    assert_eq!(find_attr(&e.attrs, "class"), Some(1));
    assert_eq!(find_attr(&e.attrs, "nope"), None);

    e.set_attr("title", "new");
    assert_eq!(e.attr("title"), Some("new".to_string()));
    assert_eq!(e.attrs.len(), 3);
    e.set_attr("lang", "en");
    assert_eq!(names(&e), vec!["id", "class", "title", "lang"]);

    e.remove_attr("class");
    assert_eq!(names(&e), vec!["id", "title", "lang"]);
    e.remove_attr("missing");
    assert_eq!(names(&e), vec!["id", "title", "lang"]);

    e.remove_attrs(&["id", "lang"]);
    assert_eq!(names(&e), vec!["title"]);

    let mut f = element("p", &[("a", "1"), ("b", "2"), ("c", "3")]);
    f.retain_attrs(&["c", "a"]);
    assert_eq!(names(&f), vec!["a", "c"]);

    f.add_attrs_if_missing(vec![attr("a", "9"), attr("d", "4")]);
    assert_eq!(names(&f), vec!["a", "c", "d"]);
    assert_eq!(f.attr("a"), Some("1".to_string()));
    assert_eq!(f.attr("d"), Some("4".to_string()));

    f.remove_all_attrs();
    assert!(f.attrs.is_empty());

    f.rename("section");
    assert_eq!(f.node_name(), "section");
}

#[test]
fn element_classes() {
    let mut e = element("div", &[]);
    assert!(!e.has_class("x"));
    e.add_class("   ");
    assert!(e.attrs.is_empty());
    e.add_class("one");
    assert_eq!(e.class(), Some("one".to_string()));
    e.add_class("two one");
    assert_eq!(e.class(), Some("one two".to_string()));
    assert!(e.has_class("two"));
    assert!(!e.has_class("tw"));

    e.remove_class("one");
    assert_eq!(e.class(), Some("two".to_string()));
    e.remove_class("  ");
    assert_eq!(e.class(), Some("two".to_string()));
    e.remove_class("two");
    assert_eq!(e.class(), Some("".to_string()));

    let mut g = element("span", &[("class", "a  b a c")]);
    g.remove_class("b");
    assert_eq!(g.class(), Some("a c".to_string()));

    let mut h = element("span", &[]);
    h.remove_class("a");
    assert!(h.attrs.is_empty());
}

#[test]
fn links_and_names() {
    assert!(element("a", &[("href", "/")]).is_link());
    assert!(element("area", &[("href", "/")]).is_link());
    assert!(element("link", &[("href", "x.css")]).is_link());
    assert!(!element("a", &[]).is_link());
    assert!(!element("div", &[("href", "/")]).is_link());
    assert!(qual_name_eq(&QualName::local_only("p"), &QualName::local_only("p")));
    assert!(!qual_name_eq(&QualName::local_only("p"), &QualName::local_only("b")));
}

#[test]
fn class_word_helpers() {
    let s = chars_of("  a b  ");
    assert_eq!(trim_chars(&s), vec!['a', ' ', 'b']);
    assert_eq!(split_spaces(&chars_of("a  b")), vec![vec!['a'], vec![], vec!['b']]);
    assert_eq!(class_words_of(" x y x "), vec![vec!['x'], vec!['y']]);
    assert!(contains_chars(&vec![vec!['x'], vec!['y']], &vec!['y']));
    assert!(!contains_chars(&vec![vec!['x']], &vec!['z']));
    assert_eq!(join_chars(&vec![vec!['a', 'b'], vec!['c']]), "ab c");
    assert_eq!(join_chars(&Vec::new()), "");
}

#[test]
fn tree_node_kinds() {
    let el = TreeNode::new(NodeId::new(1), NodeData::Element(element("b", &[])));
    assert!(el.is_element() && el.may_have_children());
    assert!(el.as_element().is_some());
    let text = TreeNode::new(NodeId::new(2), NodeData::Text { contents: "x".to_string() });
    assert!(text.is_text() && !text.may_have_children() && text.as_element().is_none());
    let doc = TreeNode::new(NodeId::new(0), NodeData::Document);
    assert!(doc.is_document() && doc.may_have_children());
    let frag = TreeNode::new(NodeId::new(0), NodeData::Fragment);
    assert!(frag.is_fragment() && frag.may_have_children());
    let comment = TreeNode::new(NodeId::new(3), NodeData::Comment { contents: "c".to_string() });
    assert!(comment.is_comment() && !comment.is_text());
    let doctype = TreeNode::new(
        NodeId::new(4),
        NodeData::Doctype { name: "html".to_string(), public_id: String::new(), system_id: String::new() },
    );
    assert!(doctype.is_doctype() && !doctype.may_have_children());

    let mut moved = TreeNode::new(NodeId::new(3), NodeData::Document);
    moved.parent = Some(NodeId::new(1));
    moved.last_child = Some(NodeId::new(5));
    moved.adjust(10);
    assert_eq!(moved.id, NodeId::new(13));
    assert_eq!(moved.parent, Some(NodeId::new(11)));
    assert_eq!(moved.last_child, Some(NodeId::new(15)));
    assert_eq!(moved.first_child, None);
    assert_eq!(fix_id(Some(NodeId::new(2)), 3), Some(NodeId::new(5)));
    assert_eq!(fix_id(None, 3), None);
}

#[test]
fn char_helpers() {
    assert!(is_whitespace('\u{2003}') && is_whitespace('\n') && !is_whitespace('a'));
    assert!(is_ascii_whitespace('\t') && !is_ascii_whitespace('\u{a0}'));
    assert!(is_ascii_alphanumeric('Z') && is_ascii_alphanumeric('7') && !is_ascii_alphanumeric('_'));
    assert_eq!(string_from(&['h', 'i']), "hi");
    let mut s = String::from("ab");
    push_str(&mut s, "cd");
    assert_eq!(s, "abcd");
    assert!(chars_eq(&['a'], &['a']) && !chars_eq(&['a'], &['a', 'b']));
    assert!(str_eq("x", "x") && !str_eq("x", "y"));
    let hay = chars_of("hello world");
    assert!(matches_at(&hay, &chars_of("world"), 6));
    assert!(!matches_at(&hay, &chars_of("world"), 5));
    assert!(chars_starts_with(&hay, &chars_of("hell")));
    assert!(chars_ends_with(&hay, &chars_of("orld")));
    assert!(!chars_ends_with(&hay, &chars_of("hello")));
    assert!(chars_contains(&hay, &chars_of("o w")));
    assert!(!chars_contains(&hay, &chars_of("ow")));
    assert!(sep(true, '\u{a0}') && !sep(false, '\u{a0}'));
    assert!(contains_word(&hay, &chars_of("world"), false));
    assert!(!contains_word(&hay, &chars_of("wor"), false));
    assert!(!contains_word(&hay, &[], false));
}

#[test]
fn adding_classes_keeps_and_adds_tokens() {
    let mut e = element("div", &[("class", "a  b")]);
    e.add_class("c a d");
    assert_eq!(e.class(), Some("a  b c d".to_string()));
    for w in ["a", "b", "c", "d"] {
        assert!(e.has_class(w));
    }
    assert!(!e.has_class("e"));
    let mut f = element("div", &[]);
    f.add_class("x y x");
    assert_eq!(f.class(), Some("x y".to_string()));
    assert!(f.has_class("x") && f.has_class("y"));
}

#[test]
fn removing_classes_leaves_the_others() {
    let mut e = element("div", &[("class", "a b c b")]);
    e.remove_class("b x");
    assert_eq!(e.class(), Some("a c".to_string()));
    assert!(!e.has_class("b"));
    assert!(e.has_class("a") && e.has_class("c"));
}

#[test]
fn added_classes_come_once_each_after_the_old_value() {
    let mut e = element("p", &[("class", "a")]);
    e.add_class("d a e d e");
    assert_eq!(e.class(), Some("a d e".to_string()));
}
