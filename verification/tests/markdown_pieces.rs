use dom_query::mdwrite::{
    add_cell_block_break, choose_emphasis_delimiter, escape_trailing_bang, find_code_lang_attribute, find_code_language,
    find_prefixed_word, has_descendant_img, image_source, is_emphasis_delim, is_list, is_md_block, md_prefix, md_suffix,
    push_delimiter, srcset_first_url, trim_trailing_cell_break, write_img, write_pre,
};
use dom_query::node::{Attr, Element, NodeData, NodeId, QualName, TreeNode};
use dom_query::node_api::get_child_or_sibling;
use dom_query::tree::Tree;

fn q(name: &str) -> QualName {
    QualName::local_only(name)
}

fn element(name: &str, attrs: &[(&str, &str)]) -> Element {
    Element::new(q(name), attrs.iter().map(|(k, v)| Attr { name: q(k), value: v.to_string() }).collect(), None, false)
}

fn el(tree: &mut Tree, name: &str, attrs: &[(&str, &str)]) -> NodeId {
    tree.create_node(NodeData::Element(element(name, attrs)))
}

#[test]
fn element_kinds_in_markdown() {
    assert!(is_md_block(&q("p")) && is_md_block(&q("figcaption")) && !is_md_block(&q("span")));
    assert!(is_list(&q("ol")) && !is_list(&q("li")));
    assert_eq!(md_prefix(&q("h3")), Some("### "));
    assert_eq!(md_prefix(&q("b")), Some("**"));
    assert_eq!(md_prefix(&q("hr")), Some("---"));
    assert_eq!(md_prefix(&q("div")), None);
    assert_eq!(md_suffix(&q("i")), Some("*"));
    assert_eq!(md_suffix(&q("h1")), None);
    assert!(is_emphasis_delim(&q("em")) && !is_emphasis_delim(&q("code")));
}

#[test]
fn text_edits_of_the_writer() {
    let mut t = String::from("Wow!");
    escape_trailing_bang(&mut t);
    assert_eq!(t, "Wow\\!");
    escape_trailing_bang(&mut t);
    assert_eq!(t, "Wow\\!");

    let mut c = String::from("cell  ");
    add_cell_block_break(&mut c, "<br>");
    assert_eq!(c, "cell<br>");
    add_cell_block_break(&mut c, "<br>");
    assert_eq!(c, "cell<br>");
    let mut e = String::new();
    add_cell_block_break(&mut e, "<br>");
    assert_eq!(e, "");

    let mut d = String::from("a <br> <br>");
    trim_trailing_cell_break(&mut d);
    assert_eq!(d, "a");

    // a closed `*` run before a new emphasis switches it to underscores
    let open: Vec<(usize, &str)> = Vec::new();
    assert_eq!(choose_emphasis_delimiter(&String::from("**a**"), "**", &open), "__");
    assert_eq!(choose_emphasis_delimiter(&String::from("x*"), "*", &open), "_");
    assert_eq!(choose_emphasis_delimiter(&String::from("x_"), "*", &open), "*");
    assert_eq!(choose_emphasis_delimiter(&String::from("plain"), "**", &open), "**");
    // the run is the still open delimiter of an ancestor: no collision
    let outer: Vec<(usize, &str)> = vec![(0, "*")];
    assert_eq!(choose_emphasis_delimiter(&String::from("*"), "**", &outer), "**");

    let mut s = String::from("**text ");
    push_delimiter(&mut s, 0, "**");
    assert_eq!(s, "**text** ");
    let mut s = String::from("** text");
    push_delimiter(&mut s, 0, "**");
    assert_eq!(s, " **text**");
    let mut s = String::from("x**  ");
    push_delimiter(&mut s, 1, "**");
    assert_eq!(s, "x  ");
}

#[test]
fn images_and_code_blocks() {
    assert_eq!(srcset_first_url(" , a.png 1x, b.png 2x"), Some("a.png".to_string()));
    assert_eq!(srcset_first_url("c.png,, d.png"), Some("c.png".to_string()));
    assert_eq!(srcset_first_url(" ,, "), None);
    let img = element("img", &[("src", " "), ("srcset", "s.png 2x"), ("alt", "a [b]"), ("title", "T")]);
    assert_eq!(image_source(&img), Some("s.png".to_string()));
    let node = TreeNode::new(NodeId::new(1), NodeData::Element(img));
    let mut text = String::from("Wow!");
    write_img(&mut text, &node);
    assert_eq!(text, "Wow\\!![a \\[b\\]](s.png \"T\")");
    let none = TreeNode::new(NodeId::new(2), NodeData::Element(element("img", &[])));
    let mut t = String::from("x");
    write_img(&mut t, &none);
    assert_eq!(t, "x");

    assert_eq!(find_prefixed_word("foo language-rust bar", "language-"), Some("rust".to_string()));
    assert_eq!(find_prefixed_word("foo bar", "language-"), None);
    let lang = TreeNode::new(NodeId::new(3), NodeData::Element(element("pre", &[("data-lang", "js extra")])));
    assert_eq!(find_code_lang_attribute(&lang), Some("js".to_string()));

    let mut tree = Tree::new(NodeData::Document);
    let root = tree.root_id();
    let pre = el(&mut tree, "pre", &[]);
    let code = el(&mut tree, "code", &[("class", "hl language-py")]);
    tree.append_child_of(&root, &pre);
    tree.append_child_of(&pre, &code);
    tree.append_child_data_of(&code, NodeData::Text { contents: "a ``` b".to_string() });
    assert_eq!(find_code_language(&tree, pre.value), Some("py".to_string()));
    let mut out = String::new();
    write_pre(&tree, pre.value, &mut out);
    assert_eq!(out, "\n````py\na ``` b\n````\n");
    assert!(!has_descendant_img(&tree, &pre));
    let i = el(&mut tree, "img", &[]);
    tree.append_child_of(&code, &i);
    assert!(has_descendant_img(&tree, &pre));
    assert!(!has_descendant_img(&tree, &i));
}

#[test]
fn document_order_steps() {
    let mut tree = Tree::new(NodeData::Document);
    let root = tree.root_id();
    let a = el(&mut tree, "a", &[]);
    let b = el(&mut tree, "b", &[]);
    let c = el(&mut tree, "c", &[]);
    tree.append_child_of(&root, &a);
    tree.append_child_of(&a, &b);
    tree.append_child_of(&root, &c);
    assert_eq!(get_child_or_sibling(&tree, &root), Some(a));
    assert_eq!(get_child_or_sibling(&tree, &a), Some(b));
    assert_eq!(get_child_or_sibling(&tree, &b), Some(c));
    assert_eq!(get_child_or_sibling(&tree, &c), None);
}
