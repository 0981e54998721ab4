//! The formatted text of a node: its text with the line breaks that block elements imply.
use vstd::prelude::*;
use crate::node::{NodeId, NodeData, QualName};
use crate::tree::Tree;
use crate::ops::TreeNodeOps;
use crate::query::ids_of;
use crate::subtree::{child_ids, texts, subtree};
use crate::md::{normalized_text, trim_right_spaces, trim_right_space, push_normalized_text};
use crate::element::trail_ws;
use crate::text::{chars_of, push_char, str_eq, ends_with, is_whitespace};

verus! {

/// Elements that stand in paragraphs of their own.
pub open spec fn requires_linebreak(l: Seq<char>) -> bool {
    ||| l == "article"@
    ||| l == "blockquote"@
    ||| l == "section"@
    ||| l == "div"@
    ||| l == "p"@
    ||| l == "pre"@
    ||| l == "h1"@
    ||| l == "h2"@
    ||| l == "h3"@
    ||| l == "h4"@
    ||| l == "h5"@
    ||| l == "h6"@
    ||| l == "ul"@
    ||| l == "ol"@
    ||| l == "dl"@
    ||| l == "table"@
}

/// Elements that end a line.
pub open spec fn ends_line(l: Seq<char>) -> bool {
    l == "br"@ || l == "hr"@ || l == "li"@ || l == "tr"@
}

/// Table cells.
pub open spec fn is_cell(l: Seq<char>) -> bool {
    l == "td"@ || l == "th"@
}

pub open spec fn two_newlines() -> Seq<char> {
    seq!['\n', '\n']
}

/// Whether an element with this name stands in a paragraph of its own.
pub fn elem_require_linebreak(name: &QualName) -> (r: bool)
    ensures
        r == requires_linebreak(name.local@),
{
    let l = name.local.as_str();
    str_eq(l, "article") || str_eq(l, "blockquote") || str_eq(l, "section") || str_eq(l, "div") || str_eq(l, "p")
        || str_eq(l, "pre") || str_eq(l, "h1") || str_eq(l, "h2") || str_eq(l, "h3") || str_eq(l, "h4")
        || str_eq(l, "h5") || str_eq(l, "h6") || str_eq(l, "ul") || str_eq(l, "ol") || str_eq(l, "dl")
        || str_eq(l, "table")
}

/// The text once the element `local` is closed: a paragraph break after block
/// elements, a line break after `br`, `hr`, `li` and `tr`, a space after a table cell.
/// Nothing changes at the start of the text or after a paragraph break.
pub open spec fn adjusted(text: Seq<char>, local: Seq<char>) -> Seq<char> {
    if text.len() == 0 || ends_with(text, two_newlines()) {
        text
    } else if requires_linebreak(local) {
        trim_right_spaces(text) + two_newlines()
    } else if ends_line(local) {
        trim_right_spaces(text).push('\n')
    } else if is_cell(local) && !(text.last() == '\n' || text.last() == ' ') {
        text.push(' ')
    } else {
        text
    }
}

fn text_ends_with_two_newlines(text: &String) -> (r: bool)
    ensures
        r == ends_with(text@, two_newlines()),
{
    let v = chars_of(text.as_str());
    let n = v.len();
    proof {
        if n >= 2 {
            assert(v@.subrange(n - 2, n as int) =~= seq![v@[n - 2], v@[n - 1]]);
        }
    }
    n >= 2 && v[n - 2] == '\n' && v[n - 1] == '\n'
}

/// Writes what closing the element `name` adds to the text.
pub fn adjust_element_offset(text: &mut String, name: &QualName)
    ensures
        final(text)@ == adjusted(old(text)@, name.local@),
{
    let v = chars_of(text.as_str());
    if v.len() == 0 || text_ends_with_two_newlines(text) {
        return;
    }
    let l = name.local.as_str();
    if elem_require_linebreak(name) {
        trim_right_space(text);
        push_char(text, '\n');
        push_char(text, '\n');
        proof {
            assert(text@ =~= trim_right_spaces(old(text)@) + two_newlines());
        }
    } else if str_eq(l, "br") || str_eq(l, "hr") || str_eq(l, "li") || str_eq(l, "tr") {
        trim_right_space(text);
        push_char(text, '\n');
    } else if (str_eq(l, "td") || str_eq(l, "th")) && !(v[v.len() - 1] == '\n' || v[v.len() - 1] == ' ') {
        push_char(text, ' ');
    }
}

/// The formatted text of node `x` appended to `text`.
pub open spec fn fmt_node(t: Tree, x: usize, text: Seq<char>, fuel: nat) -> Seq<char>
    decreases fuel, 0int,
{
    match t.data(x as int) {
        NodeData::Text { contents } => normalized_text(text, contents@, false),
        NodeData::Element(e) => {
            let l = e.name.local@;
            let t1 = if !(text.len() == 0 || ends_with(text, two_newlines())) && requires_linebreak(l) {
                text.push('\n')
            } else {
                text
            };
            let t2 = if l == "pre"@ {
                t1 + texts(t, subtree(t, x))
            } else if fuel == 0 {
                t1
            } else {
                let cs = t.children(x as int);
                fmt_forest(t, cs, cs.len() as int, t1, (fuel - 1) as nat)
            };
            adjusted(t2, l)
        },
        _ => text,
    }
}

/// The formatted texts of the first `k` nodes of `cs`, one after the other.
pub open spec fn fmt_forest(t: Tree, cs: Seq<usize>, k: int, text: Seq<char>, fuel: nat) -> Seq<char>
    decreases fuel, k,
{
    if k <= 0 {
        text
    } else {
        fmt_node(t, cs[k - 1], fmt_forest(t, cs, k - 1, text, fuel), fuel)
    }
}

/// `s` without its trailing whitespace.
pub open spec fn trim_end(s: Seq<char>) -> Seq<char> {
    s.take(s.len() - trail_ws(s))
}

/// The formatted text of a node: the node itself with its subtree, or else its
/// children's, without trailing whitespace.
pub open spec fn formatted(t: Tree, x: usize, include_node: bool) -> Seq<char> {
    if include_node {
        fmt_node(t, x, Seq::empty(), t.len())
    } else {
        let cs = t.children(x as int);
        trim_end(fmt_forest(t, cs, cs.len() as int, Seq::empty(), t.len()))
    }
}

fn push_formatted(t: &Tree, x: usize, text: &mut String, fuel: usize)
    requires
        t.wf(),
        x < t.len(),
    ensures
        final(text)@ == fmt_node(*t, x, old(text)@, fuel as nat),
    decreases fuel,
{
    match &t.nodes[x].data {
        NodeData::Text { contents } => {
            push_normalized_text(text, contents.as_str(), false);
        },
        NodeData::Element(e) => {
            let v = chars_of(text.as_str());
            if !(v.len() == 0 || text_ends_with_two_newlines(text)) && elem_require_linebreak(&e.name) {
                push_char(text, '\n');
            }
            if str_eq(e.name.local.as_str(), "pre") {
                let inner = TreeNodeOps::text_of(t, NodeId::new(x));
                crate::text::push_str(text, inner.as_str());
            } else if fuel > 0 {
                let cs = child_ids(t, x);
                let ghost s = t.children(x as int);
                let ghost t1 = text@;
                let mut k: usize = 0;
                while k < cs.len()
                    invariant
                        t.wf(),
                        fuel > 0,
                        k <= cs.len(),
                        ids_of(cs@) == s,
                        forall|j: int| 0 <= j < cs@.len() ==> (#[trigger] cs@[j]).value < t.len(),
                        text@ == fmt_forest(*t, s, k as int, t1, (fuel - 1) as nat),
                    decreases cs.len() - k,
                {
                    let c = cs[k].value;
                    proof {
                        assert(c == s[k as int]);
                    }
                    push_formatted(t, c, text, fuel - 1);
                    k = k + 1;
                }
            }
            adjust_element_offset(text, &e.name);
        },
        _ => {},
    }
}

/// Removes the trailing whitespace of `s`.
fn trim_end_ws(s: &mut String)
    ensures
        final(s)@ == trim_end(old(s)@),
{
    let v = chars_of(s.as_str());
    let n = v.len();
    let mut k: usize = n;
    while k > 0 && is_whitespace(v[k - 1])
        invariant
            k <= n,
            n == v.len(),
            forall|i: int| k <= i < n ==> crate::text::is_ws(v@[i]),
        decreases k,
    {
        k = k - 1;
    }
    proof {
        lemma_trail_ws_count(v@, n - k);
    }
    let mut out = String::new();
    let mut i: usize = 0;
    while i < k
        invariant
            k <= n,
            n == v.len(),
            i <= k,
            out@ == v@.take(i as int),
        decreases k - i,
    {
        push_char(&mut out, v[i]);
        i = i + 1;
        proof {
            assert(v@.take(i as int) =~= v@.take(i - 1).push(v@[i - 1]));
        }
    }
    *s = out;
}

proof fn lemma_trail_ws_count(s: Seq<char>, k: int)
    requires
        0 <= k <= s.len(),
        forall|i: int| s.len() - k <= i < s.len() ==> crate::text::is_ws(s[i]),
        k == s.len() || !crate::text::is_ws(s[s.len() - k - 1]),
    ensures
        trail_ws(s) == k,
    decreases k,
{
    if k > 0 {
        lemma_trail_ws_count(s.drop_last(), k - 1);
    }
}

/// The formatted text of a node: text with its whitespace normalized, paragraph
/// breaks around block elements, line breaks after `br`, `hr`, `li` and `tr`, and
/// the text of `pre` elements as it is. With `include_node` the node itself is
/// formatted, else its children are, and the trailing whitespace is removed.
/// Nothing for an id out of the tree.
pub fn format_text(tree: &Tree, id: &NodeId, include_node: bool) -> (r: String)
    requires
        tree.wf(),
    ensures
        r@ == (if tree.valid(id.value as int) { formatted(*tree, id.value, include_node) } else { Seq::empty() }),
{
    let mut text = String::new();
    if id.value >= tree.nodes.len() {
        return text;
    }
    if include_node {
        push_formatted(tree, id.value, &mut text, tree.nodes.len());
        return text;
    }
    let cs = child_ids(tree, id.value);
    let ghost s = tree.children(id.value as int);
    let mut k: usize = 0;
    while k < cs.len()
        invariant
            tree.wf(),
            k <= cs.len(),
            ids_of(cs@) == s,
            forall|j: int| 0 <= j < cs@.len() ==> (#[trigger] cs@[j]).value < tree.len(),
            text@ == fmt_forest(*tree, s, k as int, Seq::empty(), tree.len()),
        decreases cs.len() - k,
    {
        let c = cs[k].value;
        proof {
            assert(c == s[k as int]);
        }
        push_formatted(tree, c, &mut text, tree.nodes.len());
        k = k + 1;
    }
    trim_end_ws(&mut text);
    text
}

} // verus!
