use dom_query::md::{
    add_linebreaks, advance_list_number, at_block_start, is_ordered_list_marker, join_strings, linebreak,
    max_backtick_run, md_image_alt, md_link_destination, push_escaped_chunk, push_normalized_text,
    sanitize_attr_value, split_words, trim_right_space, decimal_string, FormatOpts, ListContext,
};

#[test]
fn test_escape_text() {
    let t = r"Some text: x `y` *z* _w_ [v] <u> #h >q -l +m !i . .5 5. |q|";
    let mut text = String::new();
    // mid-line: only characters with Markdown meaning anywhere are escaped
    push_normalized_text(&mut text, t, true);
    assert_eq!(
        text.as_str(),
        r"Some text: x \`y\` \*z\* \_w\_ \[v\] \<u> #h >q -l +m !i . .5 5. \|q\|"
    );

    // at the beginning of a line, block-starting characters are escaped too
    let mut text = String::new();
    for word in ["#h", ">q", "-l", "+m", "2024.", "5)", "."] {
        push_escaped_chunk(&mut text, word, true, true);
        text.push(' ');
    }
    text.pop();
    assert_eq!(text.as_str(), r"\#h \>q \-l \+m 2024\. 5\) .");

    // escape: false is used for inline code content, where backslash
    // escapes have no effect, so the content is emitted as is
    let mut text = String::new();
    push_normalized_text(&mut text, t, false);
    assert_eq!(text.as_str(), r"Some text: x `y` *z* _w_ [v] <u> #h >q -l +m !i . .5 5. |q|");
}

#[test]
fn format_opts_builders() {
    let o = FormatOpts::new();
    assert!(!o.include_node && !o.ignore_linebreak && !o.skip_escape && !o.br && !o.inline);
    assert_eq!(o.offset, 0);
    let o = o.include_node().br().offset(4);
    assert!(o.include_node && o.br && !o.inline && !o.skip_escape && !o.ignore_linebreak);
    assert_eq!(o.offset, 4);
    let o = o.inline().skip_escape().ignore_linebreak();
    assert!(o.inline && o.skip_escape && o.ignore_linebreak && o.include_node && o.br);
    assert_eq!(linebreak(true), "<br>");
    assert_eq!(linebreak(false), "\n");
}

#[test]
fn backtick_runs() {
    assert_eq!(max_backtick_run(""), 0);
    assert_eq!(max_backtick_run("no ticks"), 0);
    assert_eq!(max_backtick_run("a `b` c"), 1);
    assert_eq!(max_backtick_run("``` and `` and `"), 3);
    assert_eq!(max_backtick_run("x``y````"), 4);
}

#[test]
fn link_destinations_and_alt_text() {
    assert_eq!(md_link_destination("https://e.com/x(y)z"), "https://e.com/x(y)z");
    assert_eq!(md_link_destination("https://e.com/x)y"), "<https://e.com/x)y>");
    assert_eq!(md_link_destination("https://e.com/a b.png"), "<https://e.com/a b.png>");
    assert_eq!(md_link_destination("https://e.com/a>b"), "https://e.com/a>b");
    assert_eq!(md_link_destination("a(b"), "<a(b>");
    assert_eq!(md_link_destination("a<b>\nc"), "<a\\<b\\>%0Ac>");
    assert_eq!(md_image_alt("a [b] c"), "a \\[b\\] c");
    assert_eq!(md_image_alt("plain"), "plain");
}

#[test]
fn list_markers_and_line_starts() {
    assert!(is_ordered_list_marker("2024."));
    assert!(is_ordered_list_marker("5)"));
    assert!(!is_ordered_list_marker("."));
    assert!(!is_ordered_list_marker("5"));
    assert!(!is_ordered_list_marker("a."));
    assert!(at_block_start(""));
    assert!(at_block_start("text\n"));
    assert!(at_block_start("text\n   "));
    assert!(at_block_start("- "));
    assert!(at_block_start("x\n  12. "));
    assert!(!at_block_start("text"));
    assert!(!at_block_start("- x"));
    assert!(!at_block_start("* "));
}

#[test]
fn attribute_values() {
    assert_eq!(sanitize_attr_value("  rust extra"), "rust");
    assert_eq!(sanitize_attr_value("c++;<script>"), "c++script");
    assert_eq!(sanitize_attr_value(""), "");
    assert_eq!(sanitize_attr_value("language-c#"), "language-c#");
}

#[test]
fn words_and_spaces() {
    let words: Vec<String> = split_words(&"  a\tbb \n c ".chars().collect())
        .iter()
        .map(|w| w.iter().collect())
        .collect();
    assert_eq!(words, vec!["a", "bb", "c"]);
    let mut s = String::from("abc   ");
    trim_right_space(&mut s);
    assert_eq!(s, "abc");
    let mut s = String::from("x ");
    push_normalized_text(&mut s, "  y  z ", true);
    assert_eq!(s, "x y z ");
    let mut s = String::from("x");
    push_normalized_text(&mut s, " y", false);
    assert_eq!(s, "x y");
    let mut s = String::from("x\n");
    push_normalized_text(&mut s, "   ", false);
    assert_eq!(s, "x\n");
    assert_eq!(join_strings(&vec![String::from("a"), String::from("b"), String::from("c")], " | "), "a | b | c");
    assert_eq!(join_strings(&vec![], " | "), "");
}

#[test]
fn line_breaks_and_list_numbers() {
    let mut s = String::from("text  ");
    add_linebreaks(&mut s, "\n", "\n\n");
    assert_eq!(s, "text\n\n");
    let mut s = String::from("text\n");
    add_linebreaks(&mut s, "\n", "\n\n");
    assert_eq!(s, "text\n\n");
    let mut s = String::from("text\n\n");
    add_linebreaks(&mut s, "\n", "\n\n");
    assert_eq!(s, "text\n\n");
    assert_eq!(decimal_string(0), "0");
    assert_eq!(decimal_string(1234567890), "1234567890");

    let mut ctx = ListContext {
        opts: FormatOpts::new(),
        linebreak: "\n",
        indent: "",
        prefix: String::new(),
        next_number: Some(98),
    };
    advance_list_number(&mut ctx);
    assert_eq!(ctx.prefix, "98. ");
    assert_eq!(ctx.next_number, Some(99));
    ctx.next_number = Some(999_999_999);
    advance_list_number(&mut ctx);
    assert_eq!(ctx.prefix, "999999999. ");
    assert_eq!(ctx.next_number, Some(999_999_999));
    ctx.next_number = Some(u64::MAX);
    advance_list_number(&mut ctx);
    assert_eq!(ctx.next_number, Some(999_999_999));
    ctx.next_number = None;
    advance_list_number(&mut ctx);
    assert_eq!(ctx.prefix, format!("{}. ", u64::MAX));
}
