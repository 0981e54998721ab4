use dom_query::minisel::{parse_mini_selector, parse_selector_list, AttrOperator, Combinator, MiniSelector, MiniSelectorList, SelectorError};
use dom_query::node::{Attr, Element, NodeData, NodeId, QualName};
use dom_query::noderef::NodeRef;
use dom_query::ops::TreeNodeOps;
use dom_query::tree::Tree;

type AttrView = (String, Option<(AttrOperator, String)>);
type SelView = (Option<String>, Option<String>, Option<Vec<String>>, Option<Vec<AttrView>>, Combinator);

fn view(sel: &MiniSelector) -> SelView {
    (
        sel.name.clone(),
        sel.id.clone(),
        sel.classes.clone(),
        sel.attrs.as_ref().map(|attrs| {
            attrs
                .iter()
                .map(|a| (a.key.clone(), a.value.as_ref().map(|v| (v.op, v.value.clone()))))
                .collect()
        }),
        sel.combinator,
    )
}

fn s(x: &str) -> String {
    x.to_string()
}

fn expected(
    name: Option<&str>,
    id: Option<&str>,
    classes: Option<Vec<&str>>,
    attrs: Option<Vec<(&str, Option<(AttrOperator, &str)>)>>,
    combinator: Combinator,
) -> SelView {
    (
        name.map(s),
        id.map(s),
        classes.map(|c| c.into_iter().map(s).collect()),
        attrs.map(|a| a.into_iter().map(|(k, v)| (s(k), v.map(|(op, v)| (op, s(v))))).collect()),
        combinator,
    )
}

#[test]
fn parser_test_simple_path() {
    let sel = r#"div > a[href="example"] + span.class-1.class-2"#;
    let parsed = parse_selector_list(sel).unwrap();
    let got: Vec<SelView> = parsed.0.iter().map(view).collect();
    let want = vec![
        expected(Some("div"), None, None, None, Combinator::Child),
        expected(
            Some("a"),
            None,
            None,
            Some(vec![("href", Some((AttrOperator::Equals, "example")))]),
            Combinator::Adjacent,
        ),
        expected(Some("span"), None, Some(vec!["class-1", "class-2"]), None, Combinator::Descendant),
    ];
    assert_eq!(got, want);
}

#[test]
fn parser_test_names() {
    let sel = r#"body td a"#;
    let parsed = parse_selector_list(sel).unwrap();
    assert_eq!(parsed.0.len(), 3);
}

#[test]
fn extension_test_names() {
    let sel = r#"body td a"#;
    let parsed = parse_selector_list(sel).unwrap();
    assert_eq!(parsed.0.len(), 3);
}

#[test]
fn test_attr_operators() {
    let test_cases = vec![
        ("span[title]", Some(vec![("title", None)])),
        (r##"span[title="Title"]"##, Some(vec![("title", Some((AttrOperator::Equals, "Title")))])),
        (r##"span[title =Title]"##, Some(vec![("title", Some((AttrOperator::Equals, "Title")))])),
        (r##"span[title = The Title]"##, Some(vec![("title", Some((AttrOperator::Equals, "The Title")))])),
        (r##"span[title~="Title"]"##, Some(vec![("title", Some((AttrOperator::Includes, "Title")))])),
        (r##"span[title|="Title"]"##, Some(vec![("title", Some((AttrOperator::DashMatch, "Title")))])),
        (r##"span[title^="Title"]"##, Some(vec![("title", Some((AttrOperator::Prefix, "Title")))])),
        (r##"span[title$="Title"]"##, Some(vec![("title", Some((AttrOperator::Suffix, "Title")))])),
        (r##"span[title*="Title"]"##, Some(vec![("title", Some((AttrOperator::Substring, "Title")))])),
        (r##"span[title ="Title"]"##, Some(vec![("title", Some((AttrOperator::Equals, "Title")))])),
        (r##"span[title**"Title"]"##, None),
    ];

    for test in test_cases {
        let parsed = parse_mini_selector(test.0).unwrap();
        let want = expected(Some("span"), None, None, test.1, Combinator::Descendant);
        assert_eq!(view(&parsed.0), want);
    }
}

#[test]
fn test_mini_selector() {
    let sel = r#"a#main-link.main-class.extra-class[href="https://example.com"]"#;
    let parsed = parse_mini_selector(sel).unwrap();
    let want = expected(
        Some("a"),
        Some("main-link"),
        Some(vec!["main-class", "extra-class"]),
        Some(vec![("href", Some((AttrOperator::Equals, "https://example.com")))]),
        Combinator::Descendant,
    );
    assert_eq!(view(&parsed.0), want);
}

#[test]
fn mini_selector_errors() {
    assert_eq!(MiniSelector::new("").err(), Some(SelectorError::Error(0)));
    assert_eq!(MiniSelector::new("!").err(), Some(SelectorError::Error(0)));
    // an opened quote that is never closed fails the whole parse
    assert_eq!(MiniSelector::new(r#"a[href="x]"#).err(), Some(SelectorError::Failure(10)));
    assert_eq!(MiniSelector::new(r#"a[href=""]"#).err(), Some(SelectorError::Failure(8)));
    assert!(MiniSelectorList::new(r#"div a[href='x"#).is_err());
    assert_eq!(MiniSelectorList::new("").map(|l| l.0.len()).ok(), Some(0));
    let list = MiniSelectorList::new("div p  ~ span + b > i").unwrap();
    let combinators: Vec<Combinator> = list.0.iter().map(|m| m.combinator).collect();
    assert_eq!(
        combinators,
        vec![Combinator::Descendant, Combinator::Sibling, Combinator::Adjacent, Combinator::Child, Combinator::Descendant]
    );
    // the position after the selector comes with it
    let (sel, pos) = parse_mini_selector("p.x rest").unwrap();
    assert_eq!(view(&sel), expected(Some("p"), None, Some(vec!["x"]), None, Combinator::Descendant));
    assert_eq!(pos, 3);
}

fn el(tree: &mut Tree, name: &str, attrs: &[(&str, &str)]) -> NodeId {
    let attrs = attrs
        .iter()
        .map(|(k, v)| Attr { name: QualName::local_only(k), value: v.to_string() })
        .collect();
    tree.create_node(NodeData::Element(Element::new(QualName::local_only(name), attrs, None, false)))
}

fn text(tree: &mut Tree, contents: &str) -> NodeId {
    tree.create_node(NodeData::Text { contents: contents.to_string() })
}

fn append(tree: &mut Tree, parent: NodeId, child: NodeId) {
    TreeNodeOps::append_child_of(tree, &parent, &child);
}

/// `<div><p>Some text <span><a id="main-link" href="https://example.com/main-page/" target>Example</a></span></p></div>`
fn link_tree() -> (Tree, NodeId) {
    let mut tree = Tree::new(NodeData::Fragment);
    let root = tree.root_id();
    let div = el(&mut tree, "div", &[]);
    let p = el(&mut tree, "p", &[]);
    let t = text(&mut tree, "Some text ");
    let span = el(&mut tree, "span", &[]);
    let a = el(&mut tree, "a", &[("id", "main-link"), ("href", "https://example.com/main-page/"), ("target", "")]);
    let t2 = text(&mut tree, "Example");
    append(&mut tree, root, div);
    append(&mut tree, div, p);
    append(&mut tree, p, t);
    append(&mut tree, p, span);
    append(&mut tree, span, a);
    append(&mut tree, a, t2);
    (tree, a)
}

#[test]
fn test_selector_list_match() {
    let (tree, a) = link_tree();
    let link_node = NodeRef::new(a, &tree);

    let css_path_0 = "div > p > span > a";
    let selector_list_0 = MiniSelectorList::new(css_path_0).unwrap();
    assert!(selector_list_0.match_node(&link_node));

    let css_path_1 = "div > p a";
    let selector_list_1 = MiniSelectorList::new(css_path_1).unwrap();
    assert!(selector_list_1.match_node(&link_node));

    let selector_list_2 = MiniSelectorList::new("div > span > a").unwrap();
    assert!(!selector_list_2.match_node(&link_node));
    let selector_list_3 = MiniSelectorList::new("section a").unwrap();
    assert!(!selector_list_3.match_node(&link_node));
}

#[test]
fn test_node_snap_match() {
    let mut tree = Tree::new(NodeData::Fragment);
    let root = tree.root_id();
    let div = el(&mut tree, "div", &[]);
    let a = el(
        &mut tree,
        "a",
        &[
            ("id", "main-link"),
            ("class", "link text-center bg-blue-400 border"),
            ("href", "https://example.com/main-page/"),
            ("target", ""),
        ],
    );
    let t1 = text(&mut tree, "Example");
    let b = el(&mut tree, "a", &[("class", "other-link"), ("href", "https://example.com/another-page/")]);
    let t2 = text(&mut tree, "Another Example");
    append(&mut tree, root, div);
    append(&mut tree, div, a);
    append(&mut tree, a, t1);
    append(&mut tree, div, b);
    append(&mut tree, b, t2);

    let link_node = NodeRef::new(a, &tree);
    assert!(!link_node.mini_is(r#"a[href="//example.com"]"#));
    assert!(link_node.mini_is(r#"a[href^="https://"]"#));
    assert!(link_node.mini_is(r#"a[href$="/"]"#));
    assert!(link_node.mini_is(r#"a[href*="example.com"]"#));
    assert!(link_node.mini_is(r#"a[id|="main"]"#));
    assert!(link_node.mini_is(r#"a[class~="border"]"#));
    assert!(link_node.mini_is(r#"[class *= "blue-400 bord"]"#));
    assert!(!link_node.mini_is(r#"[class *= "glue-400 bord"]"#));
    assert!(link_node.mini_is(r#"#main-link"#));
    assert!(!link_node.mini_is(r#"#link"#));
    assert!(!link_node.mini_is(r#"a[target="_blank"]"#));
    assert!(link_node.mini_is(r#"a[target]"#));
    assert!(!link_node.mini_is(r#"a[href^="https://"][href*="examplxe"][href$="/"]"#));
    assert!(link_node.mini_is(r#"a[href^="https://"][href*="example"][href$="/"]"#));

    let another_link_node = NodeRef::new(b, &tree);
    let text_node = NodeRef::new(t2, &tree);
    assert!(!another_link_node.mini_is(r#"#main-link"#));
    assert!(!text_node.mini_is(r#"#main-link"#));
    assert!(another_link_node.mini_is("a.other-link"));
}

#[test]
fn find_descendants_by_combinator() {
    // <body><table><tr><td class="title"><a href="https://x">x</a><span>s</span><b>b</b><span>t</span></td></tr></table></body>
    let mut tree = Tree::new(NodeData::Document);
    let root = tree.root_id();
    let body = el(&mut tree, "body", &[]);
    let table = el(&mut tree, "table", &[]);
    let tr = el(&mut tree, "tr", &[]);
    let td = el(&mut tree, "td", &[("class", "title")]);
    let a = el(&mut tree, "a", &[("href", "https://x")]);
    let ax = text(&mut tree, "x");
    let span1 = el(&mut tree, "span", &[]);
    let b = el(&mut tree, "b", &[]);
    let span2 = el(&mut tree, "span", &[]);
    append(&mut tree, root, body);
    append(&mut tree, body, table);
    append(&mut tree, table, tr);
    append(&mut tree, tr, td);
    append(&mut tree, td, a);
    append(&mut tree, a, ax);
    append(&mut tree, td, span1);
    append(&mut tree, td, b);
    append(&mut tree, td, span2);

    let r = NodeRef::new(root, &tree);
    let ids = |sel: &str| -> Vec<NodeId> { r.find_descendants(sel).iter().map(|n| n.id).collect() };
    assert_eq!(ids(r#"body td.title a[href^="https://"]"#), vec![a]);
    assert_eq!(ids("body td.title > a"), vec![a]);
    assert_eq!(ids("body td.title a + span"), vec![span1]);
    assert_eq!(ids("body td.title a ~ span"), vec![span1, span2]);
    assert_eq!(ids("body tr td a"), vec![a]);
    assert_eq!(ids("span"), vec![span1, span2]);
    assert_eq!(ids("body td p").len(), 0);
    assert!(r.try_find_descendants(r#"a[href="x"#).is_err());
}

#[test]
fn descendant_step_needs_a_matching_ancestor() {
    let mut tree = Tree::new(NodeData::Fragment);
    let root = tree.root_id();
    let lone = el(&mut tree, "p", &[]);
    let list = MiniSelectorList::new("div p").unwrap();
    // no parent at all
    assert!(!list.match_node(&NodeRef::new(lone, &tree)));
    // a parent that is not a div
    let top = el(&mut tree, "p", &[]);
    append(&mut tree, root, top);
    assert!(!list.match_node(&NodeRef::new(top, &tree)));
    // a div further up
    let div = el(&mut tree, "div", &[]);
    let section = el(&mut tree, "section", &[]);
    let inner = el(&mut tree, "p", &[]);
    append(&mut tree, root, div);
    append(&mut tree, div, section);
    append(&mut tree, section, inner);
    assert!(list.match_node(&NodeRef::new(inner, &tree)));
}

#[test]
fn descendant_steps_look_only_upwards() {
    let mut tree = Tree::new(NodeData::Fragment);
    let root = tree.root_id();
    let div = el(&mut tree, "div", &[]);
    let section = el(&mut tree, "section", &[]);
    let p = el(&mut tree, "p", &[]);
    append(&mut tree, root, div);
    append(&mut tree, root, section);
    append(&mut tree, section, p);
    // the div is a sibling of an ancestor, not an ancestor
    assert!(!MiniSelectorList::new("div p").unwrap().match_node(&NodeRef::new(p, &tree)));
    assert!(MiniSelectorList::new("section p").unwrap().match_node(&NodeRef::new(p, &tree)));
    // each selector needs its own ancestor, in order
    assert!(!MiniSelectorList::new("p section p").unwrap().match_node(&NodeRef::new(p, &tree)));
    assert!(!MiniSelectorList::new("section section p").unwrap().match_node(&NodeRef::new(p, &tree)));
}
