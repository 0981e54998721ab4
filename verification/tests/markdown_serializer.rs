use dom_query::mdser::serialize_md;
use dom_query::node::{Attr, NodeId, QualName};
use dom_query::noderef::NodeRef;
use dom_query::sink::{Document, NodeOrText};

/// A document built from a small, well-formed piece of HTML the way an HTML parser
/// builds it for these inputs: `html`, an empty `head` and a `body` that holds the
/// content, a `tbody` around rows placed directly in a table, and no line feed at
/// the start of a `pre`.
fn parse_doc(html: &str) -> (Document, NodeId) {
    let mut doc = Document::default();
    let root = doc.get_document();
    let h = doc.create_element(QualName::local_only("html"), Vec::new(), false, false);
    doc.append(&root, NodeOrText::AppendNode(h));
    let head = doc.create_element(QualName::local_only("head"), Vec::new(), false, false);
    doc.append(&h, NodeOrText::AppendNode(head));
    let body = doc.create_element(QualName::local_only("body"), Vec::new(), false, false);
    doc.append(&h, NodeOrText::AppendNode(body));
    let chars: Vec<char> = html.chars().collect();
    let mut stack: Vec<(NodeId, String)> = vec![(body, "body".to_string())];
    let mut i = 0;
    let mut started = false;
    let mut skip_newline = false;
    while i < chars.len() {
        if chars[i] == '<' && i + 1 < chars.len() && (chars[i + 1].is_ascii_alphabetic() || chars[i + 1] == '/') {
            let mut j = i + 1;
            while chars[j] != '>' {
                if chars[j] == '"' || chars[j] == '\'' {
                    let q = chars[j];
                    j += 1;
                    while chars[j] != q {
                        j += 1;
                    }
                }
                j += 1;
            }
            let tag: String = chars[i + 1..j].iter().collect();
            i = j + 1;
            started = true;
            skip_newline = false;
            if let Some(name) = tag.strip_prefix('/') {
                let name = name.trim().to_string();
                if let Some(pos) = stack.iter().rposition(|(_, n)| *n == name) {
                    stack.truncate(pos.max(1));
                }
                continue;
            }
            let (name, attrs) = parse_tag(&tag);
            let mut parent = stack.last().unwrap().0;
            if name == "tr" && stack.last().unwrap().1 == "table" {
                let tbody = doc.create_element(QualName::local_only("tbody"), Vec::new(), false, false);
                doc.append(&parent, NodeOrText::AppendNode(tbody));
                stack.push((tbody, "tbody".to_string()));
                parent = tbody;
            }
            let el = doc.create_element(QualName::local_only(&name), attrs, false, false);
            doc.append(&parent, NodeOrText::AppendNode(el));
            if !matches!(name.as_str(), "img" | "br" | "hr" | "meta" | "input") {
                stack.push((el, name.clone()));
            }
            skip_newline = name == "pre";
        } else {
            let mut j = i;
            while j < chars.len() && !(chars[j] == '<' && j + 1 < chars.len() && (chars[j + 1].is_ascii_alphabetic() || chars[j + 1] == '/')) {
                j += 1;
            }
            let mut raw: String = chars[i..j].iter().collect();
            i = j;
            if skip_newline && raw.starts_with('\n') {
                raw.remove(0);
            }
            skip_newline = false;
            let text = raw.replace("&gt;", ">").replace("&lt;", "<").replace("&quot;", "\"").replace("&amp;", "&");
            if !started && text.trim().is_empty() {
                continue;
            }
            started = true;
            if !text.is_empty() {
                let parent = stack.last().unwrap().0;
                doc.append(&parent, NodeOrText::AppendText(text));
            }
        }
    }
    (doc, body)
}

fn parse_tag(tag: &str) -> (String, Vec<Attr>) {
    let chars: Vec<char> = tag.trim_end_matches('/').chars().collect();
    let mut i = 0;
    while i < chars.len() && !chars[i].is_whitespace() {
        i += 1;
    }
    let name: String = chars[..i].iter().collect();
    let mut attrs = Vec::new();
    loop {
        while i < chars.len() && chars[i].is_whitespace() {
            i += 1;
        }
        if i >= chars.len() {
            break;
        }
        let s = i;
        while i < chars.len() && chars[i] != '=' && !chars[i].is_whitespace() {
            i += 1;
        }
        let key: String = chars[s..i].iter().collect();
        let mut value = String::new();
        if i < chars.len() && chars[i] == '=' {
            i += 1;
            let q = chars[i];
            i += 1;
            let vs = i;
            while chars[i] != q {
                i += 1;
            }
            value = chars[vs..i].iter().collect();
            value = value.replace("&quot;", "\"").replace("&amp;", "&");
            i += 1;
        }
        attrs.push(Attr { name: QualName::local_only(&key), value });
    }
    (name, attrs)
}

fn html_2md_compare(html_contents: &str, expected: &str) {
    let (doc, _) = parse_doc(html_contents);
    let root_node = NodeRef::new(NodeId::new(0), &doc.tree);
    let md_text = serialize_md(&root_node, false, None);
    assert_eq!(md_text.as_str(), expected);
}


#[test]
fn test_emphasis_boundary_whitespace() {
        // CommonMark requires an opening delimiter to be followed, and a closing
        // delimiter to be preceded, by a non-whitespace character. Whitespace
        // staying inside the delimiter run renders as literal `**`/`*`.
        html_2md_compare(
            "<p><strong>The Rundown: </strong>Body text</p>",
            "**The Rundown:** Body text",
        );
        html_2md_compare(
            "<p><em> Leading</em> and <strong>trailing </strong></p>",
            "*Leading* and **trailing**",
        );
        // nested emphasis keeps working
        html_2md_compare(
            "<p><strong><em>both </em>bold</strong></p>",
            "***both* bold**",
        );
        // whitespace-only emphasis drops its delimiters instead of emitting an
        // unbalanced run
        html_2md_compare("<p>a<strong>  </strong>b</p>", "a b");
}

#[test]
fn test_emphasis_wrapping_list() {
        // A list inside an emphasis element is written into the same buffer
        // after the opening delimiter. Trimming that nested output must not
        // shift the text before it: the delimiter's recorded byte offset
        // then pointed into the middle of `é` (a panic) or at the wrong
        // character (`**ab cd` became `** abcd`).
        html_2md_compare(
            "<h1>Hi</h1><em>résumé tips<ul><li>a</li></ul></em>",
            "# Hi\n\n*résumé tips\n\n- a\n*",
        );
        html_2md_compare(
            "<div><i>中文字<ol><li>一</li></ol>后</i></div>",
            "*中文字\n\n1. 一\n后*",
        );
        html_2md_compare(
            "<div><b>ab cd<ul><li>y</li></ul></b></div>",
            "**ab cd\n\n- y\n**",
        );
        html_2md_compare(
            "<ul><li><b>ab cd<ol><li>y</li></ol></b></li></ul>",
            "- **ab cd\n\n    1. y\n**",
        );
}

#[test]
fn test_ordered_list_start_and_value() {
        html_2md_compare("<ol start=\"5\"><li>a</li><li>b</li></ol>", "5. a\n6. b");
        html_2md_compare(
            "<ol><li>a</li><li value=\"9\">b</li><li>c</li></ol>",
            "1. a\n9. b\n10. c",
        );
        // a non-numeric start falls back to the default numbering
        html_2md_compare("<ol start=\"x\"><li>a</li></ol>", "1. a");
        // CommonMark markers hold at most nine digits, and the counter must
        // not overflow on huge values
        html_2md_compare(
            "<ol start=\"1234567890\"><li>a</li><li>b</li></ol>",
            "999999999. a\n999999999. b",
        );
        html_2md_compare(
            "<ol start=\"18446744073709551615\"><li>a</li></ol>",
            "999999999. a",
        );
        html_2md_compare(
            "<ol><li>a</li><li value=\"1234567890\">b</li></ol>",
            "1. a\n999999999. b",
        );
}

#[test]
fn test_list_item_block_syntax_text() {
        // text inside a list item that begins with block syntax must be
        // escaped, or it turns the line into a nested construct
        html_2md_compare("<ul><li>1. Preheat oven</li></ul>", "- 1\\. Preheat oven");
        html_2md_compare("<ul><li># tag</li></ul>", "- \\# tag");
        html_2md_compare("<ul><li>- x</li></ul>", "- \\- x");
        html_2md_compare("<ul><li>+ x</li></ul>", "- \\+ x");
        html_2md_compare("<ul><li>&gt; x</li></ul>", "- \\> x");
        html_2md_compare("<ol><li># tag</li></ol>", "1. \\# tag");
        // continuation blocks inside an item are indented, not at a raw line
        // start, and need the same protection
        html_2md_compare("<ul><li><p>a</p><p># b</p></li></ul>", "- a\n\n  \\# b");
        // plain inline content in the same positions stays unescaped
        html_2md_compare("<ul><li>a #b</li></ul>", "- a #b");
}

#[test]
fn test_img_src_fallbacks() {
        // lazy-load pages carry the image URL in srcset or data-src
        html_2md_compare(
            "<p><img srcset=\"https://i.e.com/p.png 1x, https://i.e.com/p2x.png 2x\" alt=\"pic\"></p>",
            "![pic](https://i.e.com/p.png)",
        );
        html_2md_compare(
            "<p><img data-src=\"https://i.e.com/p.png\" alt=\"pic\"></p>",
            "![pic](https://i.e.com/p.png)",
        );
        // the first candidate may omit its descriptor and carry a trailing
        // comma; leading commas and whitespace are skipped too
        html_2md_compare(
            "<p><img srcset=\"a.png, b.png 2x\" alt=\"pic\"></p>",
            "![pic](a.png)",
        );
        html_2md_compare(
            "<p><img srcset=\", a.png 2x\" alt=\"pic\"></p>",
            "![pic](a.png)",
        );
        // a `!` before an image must not swallow the image's own `!`
        html_2md_compare(
            "<p>Wow!<img src=\"i.png\" alt=\"a\"></p>",
            "Wow\\!![a](i.png)",
        );
        // a real src still wins
        html_2md_compare(
            "<p><img src=\"https://i.e.com/s.png\" data-src=\"https://i.e.com/d.png\" alt=\"pic\"></p>",
            "![pic](https://i.e.com/s.png)",
        );
        // an empty placeholder src counts as missing
        html_2md_compare(
            "<p><img src=\"\" data-src=\"https://i.e.com/p.png\" alt=\"pic\"></p>",
            "![pic](https://i.e.com/p.png)",
        );
        // no URL anywhere: still dropped
        html_2md_compare("<p><img alt=\"pic\"></p>", "");
        html_2md_compare("<p><img src=\"\" alt=\"pic\"></p>", "");
}

#[test]
fn test_italic() {
        let contents = r"<h4><i>Italic Text</i></h4>";
        let expected = "#### *Italic Text*";

        html_2md_compare(contents, expected);
}

#[test]
fn test_span_italic() {
        let contents = r"<span>It`s like <i>that</i></span>";
        let expected = r"It\`s like *that*";

        html_2md_compare(contents, expected);
}

#[test]
fn test_bold_italic() {
        let contents = r"<span>It`s like <b><i>that</i></b></span>";
        let expected = r"It\`s like ***that***";

        html_2md_compare(contents, expected);
}

#[test]
fn test_simple_code() {
        let contents = r"<span>It`s like <code>that</code></span>";
        let expected = r"It\`s like `that`";
        html_2md_compare(contents, expected);
}

#[test]
fn test_false_multiline_code() {
        let contents = r"<span>
        It`s like 
        <code>
        that
        </code>
        </span>";
        let expected = r"It\`s like `that`";
        html_2md_compare(contents, expected);
}

#[test]
fn test_code_span_with_backticks() {
        // Backslash escapes are not interpreted inside code spans, so content
        // containing backticks must be wrapped in a longer delimiter run
        // (CommonMark code fence rule), with spaces padding the content.
        html_2md_compare("<p><code>a `b` c</code></p>", "`` a `b` c ``");
        html_2md_compare("<p><code>`leading</code></p>", "`` `leading ``");
        html_2md_compare("<p><code>trailing`</code></p>", "`` trailing` ``");
        html_2md_compare("<p><code>```</code></p>", "```` ``` ````");
        // content without backticks keeps the single-backtick form
        html_2md_compare("<p><code>go.sum</code></p>", "`go.sum`");
}

#[test]
fn test_multiline_code() {
        let contents = r"<code>$ cargo new hello
    Created binary (application) `hello` package

$ cd hello</code>";
        let expected = r"```
$ cargo new hello
    Created binary (application) `hello` package

$ cd hello
```";
        html_2md_compare(contents, expected);
}

#[test]
fn test_ul() {
        let contents = "<h3>Pizza Margherita Ingredients</h3>\
        <ul>\
            <li>Pizza Dough</li>\
            <li>Mozzarella cheese</li>\
            <li>Tomatoes</li>\
            <li>Olive Oil</li>\
            <li><i>Basil</i></li>\
            <li><b>Salt</b></li>\
        </ul>";

        let expected = "### Pizza Margherita Ingredients\n\n\
        - Pizza Dough\n\
        - Mozzarella cheese\n\
        - Tomatoes\n\
        - Olive Oil\n\
        - *Basil*\n\
        - **Salt**";

        html_2md_compare(contents, expected);
}

#[test]
fn test_ol() {
        let contents = "<h3>Pizza Margherita Ingredients</h3>\
        <ol>\
            <li>Pizza Dough</li>\
            <li>Mozzarella cheese</li>\
            <li>Tomatoes</li>\
            <li>Olive Oil</li>\
            <li><i>Basil</i></li>\
            <li><b>Salt</b></li>\
        </ol>";

        let expected = "### Pizza Margherita Ingredients\n\n\
        1. Pizza Dough\n\
        2. Mozzarella cheese\n\
        3. Tomatoes\n\
        4. Olive Oil\n\
        5. *Basil*\n\
        6. **Salt**";

        html_2md_compare(contents, expected);
}

#[test]
fn test_bad_ol() {
        let contents = "<h3>Pizza Margherita Ingredients</h3>\
        <ol>\
            <li>Pizza Dough</li>\
            <li>Mozzarella cheese</li>\
            <li>Tomatoes</li>\
            <li>Olive Oil</li>\
            <div><i>Basil</i></div>\
            <li><b>Salt</b></li>\
        </ol>";

        let expected = "### Pizza Margherita Ingredients\n\n\
        1. Pizza Dough\n\
        2. Mozzarella cheese\n\
        3. Tomatoes\n\
        4. Olive Oil\n\
        \n*Basil*\n\n\
        5. **Salt**";

        html_2md_compare(contents, expected);
}

#[test]
fn test_list_inline() {
        let contents = "
        <ol>\
            <li>Item 1</li>\
            <li>Item 2</li>\
            <li>Item 3\
                <div>\
                    <ol>\
                        <li>Item 3-1</li>\
                        <li>Item 3-2</li>\
                        <li>Item 3-3\
                            <ol>\
                                <li>Item 3-3-1</li>\
                                <li>Item 3-3-2</li>\
                                <li>Item 3-3-3</li>\
                            </ol>
                        </li>\
                    </ol>\
                </div>
            </li>\
        </ol>";

        let expected = "\
1. Item 1
2. Item 2
3. Item 3

    1. Item 3-1
    2. Item 3-2
    3. Item 3-3

        1. Item 3-3-1
        2. Item 3-3-2
        3. Item 3-3-3";

        html_2md_compare(contents, expected);
}

#[test]
fn test_list_with_paragraphs() {
        let contents = "<ol>
            <li>
                <p>Paragraph 1-1</p>
                <p>Paragraph 1-2</p>
            </li>
            <li><p>Paragraph 2-1</p><p>Paragraph 2-2</p></li>
            <li><p>Paragraph 3-1</p></li>
        </ol>
        <p>Another Paragraph</p>";

        let expected = "\
1. Paragraph 1-1

   Paragraph 1-2

2. Paragraph 2-1

   Paragraph 2-2

3. Paragraph 3-1

Another Paragraph";

        html_2md_compare(contents, expected);
}

#[test]
fn test_paragraphs() {
        let contents =
            "<p>To create paragraphs, use a blank line to separate one or more lines of text.</p>
        <p>I really like using <span>Markdown</span><span>  text</span>.</p>

        <p>I think I'll use it to format all of my documents from now on.</p>";

        let expected = "To create paragraphs, use a blank line to separate one or more lines of text.\n\n\
        I really like using Markdown text.\n\n\
        I think I'll use it to format all of my documents from now on.";

        html_2md_compare(contents, expected);
}

#[test]
fn test_images() {
        let simple_contents = r#"<p>Image: <img src="/path/to/img.jpg" alt="Alt text"></p>"#;
        let simple_expected = "Image: ![Alt text](/path/to/img.jpg)";
        html_2md_compare(simple_contents, simple_expected);

        // with title
        let simple_contents =
            r#"<p>Image: <img src="/path/to/img.jpg" alt="Alt text" title="Title"></p>"#;
        let simple_expected = r#"Image: ![Alt text](/path/to/img.jpg "Title")"#;
        html_2md_compare(simple_contents, simple_expected);

        // a title with quotes must not terminate the destination early
        let simple_contents =
            r#"<p>Image: <img src="/path/to/img.jpg" alt="Alt text" title='A "Great" Photo'></p>"#;
        let simple_expected = r#"Image: ![Alt text](/path/to/img.jpg "A \"Great\" Photo")"#;
        html_2md_compare(simple_contents, simple_expected);

        // without alt
        let simple_contents = r#"<p>Image: <img src="/path/to/img.jpg"></p>"#;
        let simple_expected = r"Image: ![](/path/to/img.jpg)";
        html_2md_compare(simple_contents, simple_expected);

        // no img
        let simple_contents = r#"<p>Image:  <img alt="Alt text" title="Title"></p>"#;
        let simple_expected = "Image:";
        html_2md_compare(simple_contents, simple_expected);
}

#[test]
fn test_pre_with_interior_backticks() {
        // A fenced block whose content contains a fence-length backtick line
        // would terminate at that line; the fence must be longer than any
        // interior backtick run (CommonMark §fenced-code-blocks).
        html_2md_compare(
            "<pre><code>```bash\nls\n```</code></pre>",
            "````\n```bash\nls\n```\n````",
        );
        // a short interior run does not force a longer fence
        html_2md_compare("<pre><code>a`b</code></pre>", "```\na`b\n```");
}

#[test]
fn test_pre_code() {
        let simple_contents = "<pre>\
<span>fn</span> <span>main</span><span>()</span><span> </span><span>{</span>\n\
<span>    </span><span>println!</span><span>(</span><span>\"Hello, World!\"</span><span>);</span>\n\
<span>}</span>\
</pre>";
        let simple_expected = "```
fn main() {
    println!(\"Hello, World!\");
}
```";
        html_2md_compare(simple_contents, simple_expected);
}

#[test]
fn test_pre_code_with_data_lang_attribute() {
        let simple_contents = "<pre data-lang=\"rust\">\
<span>fn</span> <span>main</span><span>()</span><span> </span><span>{</span>\n\
<span>    </span><span>println!</span><span>(</span><span>\"Hello, World!\"</span><span>);</span>\n\
<span>}</span>\n\
</pre>";
        let simple_expected = "```rust
fn main() {
    println!(\"Hello, World!\");
}

```";
        html_2md_compare(simple_contents, simple_expected);
}

#[test]
fn test_pre_code_with_data_lang_attribute_in_parent_tag() {
        let simple_contents = "<div data-lang=\"rust\"><pre>\
<span>fn</span> <span>main</span><span>()</span><span> </span><span>{</span>\n\
<span>    </span><span>println!</span><span>(</span><span>\"Hello, World!\"</span><span>);</span>\n\
<span>}</span>\n\
</pre></div>";
        let simple_expected = "```rust
fn main() {
    println!(\"Hello, World!\");
}

```";
        html_2md_compare(simple_contents, simple_expected);
}

#[test]
fn test_pre_code_with_language_css_class_in_child_code_tag() {
        let contents = "<pre><code class=\"language-rust something else\">\
<span>fn</span> <span>main</span><span>()</span><span> </span><span>{</span>\n\
<span>    </span><span>println!</span><span>(</span><span>\"Hello, World!\"</span><span>);</span>\n\
<span>}</span>\n\
</code></pre>";
        let expected = "```rust
fn main() {
    println!(\"Hello, World!\");
}

```";
        html_2md_compare(contents, expected);
}

#[test]
fn test_blockquote() {
        let simple_contents = "<blockquote><p>Quoted text</p></blockquote>";
        let simple_expected = "> Quoted text";
        html_2md_compare(simple_contents, simple_expected);

        let complex_contents = "<blockquote>
<p>
Who has seen the wind?<br>
Neither I nor you:<br>
But when the leaves hang trembling,<br>
The wind is passing through.
</p>
<p>
Who has seen the wind?<br>
Neither you nor I:<br>
But when the trees bow down their heads,<br>
The wind is passing by.
</p>
</blockquote>
<p><i>Christina Rossetti</i></p>";
        let complex_expected = r"> Who has seen the wind?  
> Neither I nor you:  
> But when the leaves hang trembling,  
> The wind is passing through.
> 
> Who has seen the wind?  
> Neither you nor I:  
> But when the trees bow down their heads,  
> The wind is passing by.

*Christina Rossetti*";
        html_2md_compare(complex_contents, complex_expected);

        let empty_contents = "<blockquote></blockquote>";
        let empty_expected = "";
        html_2md_compare(empty_contents, empty_expected);
}

#[test]
fn test_inline_blockquote() {
        let contents = "<blockquote>
<p>
Who has seen the wind?<br>
Neither I nor you:<br>
But when the leaves hang trembling,<br>
The wind is passing through.
</p>
<blockquote>
<p>
Who has seen the wind?<br>
Neither you nor I:<br>
But when the trees bow down their heads,<br>
The wind is passing by.
</p>
</blockquote>
</blockquote>";
        let expected = r"> Who has seen the wind?  
> Neither I nor you:  
> But when the leaves hang trembling,  
> The wind is passing through.
> 
> > Who has seen the wind?  
> > Neither you nor I:  
> > But when the trees bow down their heads,  
> > The wind is passing by.";
        html_2md_compare(contents, expected);
}

#[test]
fn test_table() {
        let contents = "<table>
    <tr>
        <th>Column 1</th>
        <th>Column 2</th>
        <th>Column 3</th>
    </tr>
    <tr>
        <td>R 1, <i>C 1</i></td>
        <td>R 1, <i>C 2</i></td>
        <td>R 1, <i>C 3</i></td>
    </tr>
    <tr>
        <td>R 2, <i>C 1</i></td>
        <td>R 2, <i>C 2</i></td>
        <td>R 2, <i>C 3</i></td>
    </tr>
</table>";
        let expected = "| Column 1 | Column 2 | Column 3 |
| -------- | -------- | -------- |
| R 1, *C 1* | R 1, *C 2* | R 1, *C 3* |
| R 2, *C 1* | R 2, *C 2* | R 2, *C 3* |";

        html_2md_compare(contents, expected);
}

#[test]
fn test_table_inside_table() {
        let contents = "<table>
    <tr>
        <td>
            <table>
                <tr>
                    <th>Column 1</th>
                    <th>Column 2</th>
                    <th>Column 3</th>
                </tr>
                <tr>
                    <td>R 1, <i>C 1</i></td>
                    <td>R 1, <i>C 2</i></td>
                    <td>R 1, <i>C 3</i></td>
                </tr>
                <tr>
                    <td>R 2, <i>C 1</i></td>
                    <td>R 2, <i>C 2</i></td>
                    <td>R 2, <i>C 3</i></td>
                </tr>
            </table>
        </td>
    </tr>
</table>";
        let expected = "| Column 1 | Column 2 | Column 3 |
| -------- | -------- | -------- |
| R 1, *C 1* | R 1, *C 2* | R 1, *C 3* |
| R 2, *C 1* | R 2, *C 2* | R 2, *C 3* |";
        html_2md_compare(contents, expected);
}

#[test]
fn test_table_without_headings() {
        let contents = "<table>
    <tr>
        <td>R 1, <i>C 1</i></td>
        <td>R 1, <i>C 2</i></td>
        <td>R 1, <i>C 3</i></td>
    </tr>
    <tr>
        <td>R 2, <i>C 1</i></td>
        <td>R 2, <i>C 2</i></td>
        <td>R 2, <i>C 3</i></td>
    </tr>
</table>";
        let expected = "|   |   |   |
| - | - | - |
| R 1, *C 1* | R 1, *C 2* | R 1, *C 3* |
| R 2, *C 1* | R 2, *C 2* | R 2, *C 3* |";
        html_2md_compare(contents, expected);
}

#[test]
fn test_table_with_row_header_cells() {
        // Row-header `<th>` cells must stay in their own row as first-class
        // cells; previously they were collected into the header row instead.
        // Only a first row made of `th` cells is the header.
        html_2md_compare(
            "<table>
    <tr><th></th><th>C1</th><th>C2</th></tr>
    <tr><th>R1</th><td>a</td><td>b</td></tr>
</table>",
            "|  | C1 | C2 |
| - | -- | -- |
| R1 | a | b |",
        );
        // cells within a row keep document order even when mixed th/td
        html_2md_compare(
            "<table>
    <tr><th>H</th><th>H2</th></tr>
    <tr><th>R1</th><td>x</td></tr>
</table>",
            "| H | H2 |
| - | -- |
| R1 | x |",
        );
        // without a `th` header row, the header is blank and every row,
        // including one that starts with a row-header `th`, is a body row
        html_2md_compare(
            "<table>
    <tr><th>R1</th><td>a</td></tr>
    <tr><th>R2</th><td>b</td></tr>
</table>",
            "|   |   |
| - | - |
| R1 | a |
| R2 | b |",
        );
        // a header-only table (main panicked indexing the missing body row)
        html_2md_compare(
            "<table><tr><th>a</th><th>b</th></tr></table>",
            "| a | b |\n| - | - |",
        );
}

#[test]
fn test_adjacent_inline_blocks_separated() {
        // figcaption always follows a block-level image, the caption must not
        // glue to the image markdown
        html_2md_compare(
            "<figure><img src=\"https://i.e.com/p.png\" alt=\"f\"><figcaption>Photo Credit: Reddit</figcaption></figure>",
            "![f](https://i.e.com/p.png)\n\nPhoto Credit: Reddit",
        );
        // dt and dd are separate blocks in HTML but neither is a md block
        html_2md_compare("<dl><dt>Term</dt><dd>Def</dd></dl>", "Term\n\nDef");
        // block children inside a table cell must be joined with the cell
        // linebreak (<br>), not concatenated
        html_2md_compare(
            "<table><tr><th>H</th></tr><tr><td><p>para1</p><p>para2</p></td></tr></table>",
            "| H |\n| - |\n| para1<br>para2 |",
        );
}

#[test]
fn test_table_with_empty_header_cells() {
        // An empty `<th>` must still get a separator cell, otherwise the
        // separator row is not a valid delimiter row and the table is not
        // recognized by Markdown renderers.
        let contents = "<table>
    <tr>
        <th></th>
        <th>x</th>
    </tr>
    <tr>
        <td>a</td>
        <td>b</td>
    </tr>
</table>";
        let expected = "|  | x |
| - | - |
| a | b |";
        html_2md_compare(contents, expected);
}

#[test]
fn test_table_skip() {
        let contents = "<table>
    <tr>
        <td>R 1, <i>C 1</i></td>
        <td>R 1, <i>C 2</i></td>
        <td>R 1, <i>C 3</i></td>
    </tr>
    <tr>
        <td>R 2, <i>C 1</i></td>
        <td>R 2, <i>C 2</i></td>
    </tr>
</table>";
        let expected = "R 1, *C 1* R 1, *C 2* R 1, *C 3*  
R 2, *C 1* R 2, *C 2*";
        html_2md_compare(contents, expected);
}

#[test]
fn test_table_empty() {
        let contents = "<table>
    <tr></tr>
    <tr></tr>
</table>";
        let expected = "";
        html_2md_compare(contents, expected);
}

#[test]
fn test_table_with_list() {
        let contents = "<table>
    <tr>
        <td>1</td>
        <td>
            <ul><li>Lemon</li></ul>
            <ul><li>Lime</li></ul>
            <ul><li>Grapefruit</li></ul>
            <ul><li>Orange</li></ul>
        </td>
    </tr>
</table>";
        let expected =
            "|   |   |\n| - | - |\n| 1 | + Lemon<br>+ Lime<br>+ Grapefruit<br>+ Orange |";
        html_2md_compare(contents, expected);
}

#[test]
fn test_skip_tags_default() {
        // By default, formatter will skip ["script", "style", "meta", "head"]
        let contents = "
        <style>p {color: blue;}</style>
        <p>I really like using <b>Markdown</b>.</p>

        <p>I think I'll use it to format all of my documents from now on.</p>";

        let expected = "I really like using **Markdown**.\n\n\
        I think I'll use it to format all of my documents from now on.";

        html_2md_compare(contents, expected);
}

#[test]
fn test_linebreak_after_lists() {
        let contents = r"Influenced
        <ul>
         <li>Idris (programming language)</li>
         <li>Project Verona</li>
         <li>Spark</li>
         <li>Swift</li>
         <li>V</li>
         <li>Zig</li>
        </ul>
        <p><b>Rust</b> is a general-purpose programming language</p>";
        let expected = "Influenced\n\n\
- Idris (programming language)
- Project Verona
- Spark
- Swift
- V
- Zig

**Rust** is a general-purpose programming language";

        html_2md_compare(contents, expected);
}

#[test]
fn test_pre_code_without_new_line() {
        let simple_contents = r#"<pre>
<span>fn</span> <span>main</span><span>()</span><span> </span><span>{</span>
<span>    </span><span>println!</span><span>(</span><span>"Hello, World!"</span><span>);</span>
<span>}</span></pre>"#;
        let simple_expected = "```
fn main() {
    println!(\"Hello, World!\");
}
```";
        html_2md_compare(simple_contents, simple_expected);
}

#[test]
fn test_headings() {
    // when passing include_node: true, leading and trailing whitespaces will be kept.
    let contents = r"<h1>Heading 1</h1>
        <h2>Heading 2</h2>
        <h3>Heading 3</h3>
        <h4>Heading 4</h4>
        <h5>Heading 5</h5>
        <h6>Heading 6</h6>
        <h3><span>III.</span> Heading With Span</h3>
        <h3><span></span>Early years (2006–2009)</h3>
        <h3><span> </span> Early years (2006–2009)</h3>
        <hr>";

    let expected = "\n\n# Heading 1\n\n\
        ## Heading 2\n\n\
        ### Heading 3\n\n\
        #### Heading 4\n\n\
        ##### Heading 5\n\n\
        ###### Heading 6\n\n\
        ### III. Heading With Span\n\n\
        ### Early years (2006–2009)\n\n\
        ### Early years (2006–2009)\n\n\
        ---\n\n";

    let (doc, body) = parse_doc(contents);
    let body_node = NodeRef::new(body, &doc.tree);
    let md_text = serialize_md(&body_node, true, None);
    assert_eq!(md_text.as_str(), expected);
}
