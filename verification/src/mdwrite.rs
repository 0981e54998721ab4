//! Pieces of the Markdown writer: which elements make blocks, lists and emphasis,
//! the delimiters around emphasis, the breaks inside table cells, and the language
//! label of a code block.
use vstd::prelude::*;
use crate::node::{QualName, NodeData, TreeNode, NodeId, Attr};
use crate::tree::Tree;
use crate::text::{chars_of, str_eq, chars_ends_with, ends_with, push_char, push_str};
use crate::md::{trim_right_space, trim_right_spaces, sanitize_attr_value, first_token, attr_safe, word_len, lead_ascii_ws, escape_brackets,
    is_tick_run, max_backtick_run,
    link_destination, normalized_text, md_image_alt, md_link_destination, push_normalized_text};
use crate::text::{is_ascii_ws, is_ascii_whitespace};
use crate::element::{attr_value, trim, trim_chars};
use crate::node::Element;
use crate::element::opt_view;
use crate::subtree::{subtree, subtree_ids};
use crate::query::ids_of;
use crate::ops::TreeNodeOps;

verus! {

/// The element names that stand as blocks in Markdown.
pub open spec fn md_block_name(l: Seq<char>) -> bool {
    ||| l == "article"@ || l == "blockquote"@ || l == "section"@ || l == "div"@ || l == "p"@
    ||| l == "h1"@ || l == "h2"@ || l == "h3"@ || l == "h4"@ || l == "h5"@ || l == "h6"@
    ||| l == "ul"@ || l == "ol"@ || l == "dl"@ || l == "table"@ || l == "hr"@
    ||| l == "figcaption"@ || l == "dt"@ || l == "dd"@
}

/// Whether an element with this name is a block in Markdown.
pub fn is_md_block(name: &QualName) -> (r: bool)
    ensures
        r == md_block_name(name.local@),
{
    let l = name.local.as_str();
    str_eq(l, "article") || str_eq(l, "blockquote") || str_eq(l, "section") || str_eq(l, "div") || str_eq(l, "p")
        || str_eq(l, "h1") || str_eq(l, "h2") || str_eq(l, "h3") || str_eq(l, "h4") || str_eq(l, "h5") || str_eq(l, "h6")
        || str_eq(l, "ul") || str_eq(l, "ol") || str_eq(l, "dl") || str_eq(l, "table") || str_eq(l, "hr")
        || str_eq(l, "figcaption") || str_eq(l, "dt") || str_eq(l, "dd")
}

/// Whether an element with this name is a list.
pub fn is_list(name: &QualName) -> (r: bool)
    ensures
        r == (name.local@ == "ul"@ || name.local@ == "ol"@),
{
    let l = name.local.as_str();
    str_eq(l, "ul") || str_eq(l, "ol")
}

/// What Markdown writes before an element: heading marks, emphasis, a rule.
pub open spec fn md_prefix_of(l: Seq<char>) -> Option<Seq<char>> {
    if l == "h1"@ {
        Some("# "@)
    } else if l == "h2"@ {
        Some("## "@)
    } else if l == "h3"@ {
        Some("### "@)
    } else if l == "h4"@ {
        Some("#### "@)
    } else if l == "h5"@ {
        Some("##### "@)
    } else if l == "h6"@ {
        Some("###### "@)
    } else if l == "strong"@ || l == "b"@ {
        Some("**"@)
    } else if l == "em"@ || l == "i"@ {
        Some("*"@)
    } else if l == "hr"@ {
        Some("---"@)
    } else {
        None
    }
}

/// What Markdown writes before an element with this name, if anything.
pub fn md_prefix(name: &QualName) -> (r: Option<&'static str>)
    ensures
        match r {
            Some(p) => md_prefix_of(name.local@) == Some(p@),
            None => md_prefix_of(name.local@) is None,
        },
{
    let l = name.local.as_str();
    if str_eq(l, "h1") {
        Some("# ")
    } else if str_eq(l, "h2") {
        Some("## ")
    } else if str_eq(l, "h3") {
        Some("### ")
    } else if str_eq(l, "h4") {
        Some("#### ")
    } else if str_eq(l, "h5") {
        Some("##### ")
    } else if str_eq(l, "h6") {
        Some("###### ")
    } else if str_eq(l, "strong") || str_eq(l, "b") {
        Some("**")
    } else if str_eq(l, "em") || str_eq(l, "i") {
        Some("*")
    } else if str_eq(l, "hr") {
        Some("---")
    } else {
        None
    }
}

/// What Markdown writes after an element: the end of an emphasis.
pub open spec fn md_suffix_of(l: Seq<char>) -> Option<Seq<char>> {
    if l == "strong"@ || l == "b"@ {
        Some("**"@)
    } else if l == "em"@ || l == "i"@ {
        Some("*"@)
    } else {
        None
    }
}

/// What Markdown writes after an element with this name, if anything.
pub fn md_suffix(name: &QualName) -> (r: Option<&'static str>)
    ensures
        match r {
            Some(p) => md_suffix_of(name.local@) == Some(p@),
            None => md_suffix_of(name.local@) is None,
        },
{
    let l = name.local.as_str();
    if str_eq(l, "strong") || str_eq(l, "b") {
        Some("**")
    } else if str_eq(l, "em") || str_eq(l, "i") {
        Some("*")
    } else {
        None
    }
}

/// Whether an element with this name is written as emphasis.
pub fn is_emphasis_delim(name: &QualName) -> (r: bool)
    ensures
        r == (name.local@ == "strong"@ || name.local@ == "b"@ || name.local@ == "em"@ || name.local@ == "i"@),
{
    let l = name.local.as_str();
    str_eq(l, "strong") || str_eq(l, "b") || str_eq(l, "em") || str_eq(l, "i")
}

/// The characters of `v` from `lo` to `hi`, as a string.
fn chars_between(v: &Vec<char>, lo: usize, hi: usize) -> (r: String)
    requires
        lo <= hi <= v.len(),
    ensures
        r@ == v@.subrange(lo as int, hi as int),
{
    let mut out = String::new();
    let mut i = lo;
    while i < hi
        invariant
            lo <= i <= hi <= v.len(),
            out@ == v@.subrange(lo as int, i as int),
        decreases hi - i,
    {
        push_char(&mut out, v[i]);
        i = i + 1;
        proof {
            assert(out@ =~= v@.subrange(lo as int, i as int));
        }
    }
    out
}

/// The text with a trailing `!` escaped, unless it is escaped already.
pub open spec fn bang_escaped(s: Seq<char>) -> Seq<char> {
    if s.len() > 0 && s.last() == '!' && !(s.len() >= 2 && s[s.len() - 2] == '\\') {
        s.drop_last() + seq!['\\', '!']
    } else {
        s
    }
}

/// Escapes a trailing `!`, so that a `[` written next cannot make an image of
/// what comes before.
pub fn escape_trailing_bang(text: &mut String)
    ensures
        final(text)@ == bang_escaped(old(text)@),
{
    let v = chars_of(text.as_str());
    let n = v.len();
    if n > 0 && v[n - 1] == '!' && !(n >= 2 && v[n - 2] == '\\') {
        let mut out = chars_between(&v, 0, n - 1);
        push_char(&mut out, '\\');
        push_char(&mut out, '!');
        proof {
            assert(out@ =~= bang_escaped(old(text)@));
        }
        *text = out;
    }
}

/// The text once a block ends inside a table cell: trailing spaces go, and one line
/// break follows unless the text is empty or already ends a line.
pub open spec fn cell_block_break(s: Seq<char>, lb: Seq<char>) -> Seq<char> {
    let t = trim_right_spaces(s);
    if t.len() == 0 || ends_with(t, lb) || t.last() == '\n' {
        t
    } else {
        t + lb
    }
}

/// Ends a block inside a table cell with a single line break.
pub fn add_cell_block_break(text: &mut String, linebreak: &str)
    ensures
        final(text)@ == cell_block_break(old(text)@, linebreak@),
{
    trim_right_space(text);
    let v = chars_of(text.as_str());
    let lb = chars_of(linebreak);
    if v.len() == 0 || chars_ends_with(v.as_slice(), lb.as_slice()) || v[v.len() - 1] == '\n' {
        return;
    }
    push_str(text, linebreak);
}

/// The `<br>` tag.
pub open spec fn br_tag() -> Seq<char> {
    seq!['<', 'b', 'r', '>']
}

/// Trailing spaces are at most the whole text.
pub proof fn lemma_trail_spaces_len(s: Seq<char>)
    ensures
        crate::md::trail_spaces(s) <= s.len(),
        trim_right_spaces(s).len() == s.len() - crate::md::trail_spaces(s),
    decreases s.len(),
{
    if s.len() > 0 && s.last() == ' ' {
        lemma_trail_spaces_len(s.drop_last());
    }
}

/// The text without the line breaks that the last block of a cell left: each
/// trailing `<br>` goes, with the spaces before it.
pub open spec fn cell_break_trimmed(s: Seq<char>) -> Seq<char>
    decreases s.len(),
{
    if ends_with(s, br_tag()) {
        proof {
            lemma_trail_spaces_len(s.take(s.len() - 4));
        }
        cell_break_trimmed(trim_right_spaces(s.take(s.len() - 4)))
    } else {
        s
    }
}

/// Drops the trailing cell line breaks.
pub fn trim_trailing_cell_break(text: &mut String)
    ensures
        final(text)@ == cell_break_trimmed(old(text)@),
{
    let br: Vec<char> = vec!['<', 'b', 'r', '>'];
    let ghost goal = cell_break_trimmed(text@);
    loop
        invariant
            cell_break_trimmed(text@) == goal,
            goal == cell_break_trimmed(old(text)@),
            br@ == br_tag(),
        decreases text@.len(),
    {
        let v = chars_of(text.as_str());
        if !chars_ends_with(v.as_slice(), br.as_slice()) {
            return;
        }
        let mut out = chars_between(&v, 0, v.len() - 4);
        trim_right_space(&mut out);
        proof {
            assert(v@.take(v@.len() - 4) =~= v@.subrange(0, v@.len() - 4));
            lemma_trail_spaces_len(v@.take(v@.len() - 4));
            assert(out@.len() <= v@.len() - 4);
        }
        *text = out;
    }
}

/// The length of the run of `c` that ends `s`.
pub open spec fn trail_run(s: Seq<char>, c: char) -> nat
    decreases s.len(),
{
    if s.len() > 0 && s.last() == c { 1 + trail_run(s.drop_last(), c) } else { 0 }
}

/// The delimiter that opens an emphasis after text `s`: its own (`prefix`), or the
/// underscore one of the same length when `s` ends with a closed run of `*` that it
/// would merge with. `last_open` is where the innermost emphasis still open began.
pub open spec fn chosen_delim(s: Seq<char>, prefix: Seq<char>, last_open: Option<int>) -> Seq<char> {
    if s.len() == 0 || !(s.last() == '*' || s.last() == '_') {
        prefix
    } else if last_open == Some(s.len() - trail_run(s, s.last())) {
        prefix
    } else if s.last() == '*' {
        if prefix.len() > 1 { seq!['_', '_'] } else { seq!['_'] }
    } else {
        prefix
    }
}

/// Picks the delimiter that opens an emphasis element (see [`chosen_delim`]);
/// `delim_starts` holds where each emphasis still open began, and its delimiter.
pub fn choose_emphasis_delimiter<'a>(text: &String, prefix: &'a str, delim_starts: &Vec<(usize, &'a str)>) -> (r: &'a str)
    ensures
        r@ == chosen_delim(text@, prefix@, if delim_starts@.len() > 0 { Some(delim_starts@.last().0 as int) } else { None }),
{
    let v = chars_of(text.as_str());
    let n = v.len();
    if n == 0 {
        return prefix;
    }
    let last = v[n - 1];
    if last != '*' && last != '_' {
        return prefix;
    }
    let mut run_start = n;
    proof {
        assert(v@.take(n as int) =~= v@);
    }
    while run_start > 0 && v[run_start - 1] == last
        invariant
            run_start <= n == v@.len(),
            n > 0,
            last == v@[n - 1],
            trail_run(v@, last) == (n - run_start) + trail_run(v@.take(run_start as int), last),
        decreases run_start,
    {
        proof {
            assert(v@.take(run_start as int).drop_last() =~= v@.take(run_start - 1));
        }
        run_start = run_start - 1;
    }
    proof {
        if run_start > 0 {
            assert(v@.take(run_start as int).last() == v@[run_start - 1]);
        }
        assert(trail_run(v@.take(run_start as int), last) == 0);
        assert(run_start == n - trail_run(v@, last));
    }
    if delim_starts.len() > 0 && delim_starts[delim_starts.len() - 1].0 == run_start {
        return prefix;
    }
    let plen = chars_of(prefix).len();
    if last == '*' {
        if plen > 1 {
            proof {
                reveal_strlit("__");
            }
            "__"
        } else {
            proof {
                reveal_strlit("_");
            }
            "_"
        }
    } else {
        prefix
    }
}

/// Every character of `s` is a space.
pub open spec fn all_spaces(s: Seq<char>) -> bool {
    forall|i: int| 0 <= i < s.len() ==> s[i] == ' '
}

/// The text once the emphasis opened at `start` with delimiter `d` closes: an
/// emphasis with nothing but spaces in it loses its delimiter; else a space just
/// after the opening moves before it, trailing spaces move after the closing one.
pub open spec fn delimiter_closed(s: Seq<char>, start: int, d: Seq<char>) -> Seq<char> {
    let dl = d.len() as int;
    if s.len() <= start + dl || all_spaces(s.skip(start + dl)) {
        if s.len() > start {
            s.take(start) + (if s.len() > start + dl { s.skip(start + dl) } else { Seq::empty() })
        } else {
            s
        }
    } else {
        let s1 = if s[start + dl] == ' ' {
            s.take(start) + seq![' '] + s.subrange(start, start + dl) + s.skip(start + dl + 1)
        } else {
            s
        };
        let t = trim_right_spaces(s1);
        t + d + (if t.len() != s1.len() { seq![' '] } else { Seq::empty() })
    }
}

/// Writes the closing delimiter of the emphasis opened at character `start`.
pub fn push_delimiter(text: &mut String, start: usize, delim: &str)
    ensures
        final(text)@ == delimiter_closed(old(text)@, start as int, delim@),
{
    let v = chars_of(text.as_str());
    let d = chars_of(delim);
    let n = v.len();
    let dl = d.len();
    let mut only_spaces = true;
    if n > start && n - start > dl {
        let mut i = start + dl;
        while i < n
            invariant
                start + dl <= i <= n == v@.len(),
                only_spaces == (forall|j: int| start + dl <= j < i ==> v@[j] == ' '),
            decreases n - i,
        {
            if v[i] != ' ' {
                only_spaces = false;
            }
            i = i + 1;
        }
        proof {
            if only_spaces {
                assert forall|j: int| 0 <= j < v@.skip(start + dl).len() implies #[trigger] v@.skip(start + dl)[j] == ' ' by {
                    assert(v@.skip(start + dl)[j] == v@[start + dl + j]);
                }
            } else {
                let j = choose|j: int| start + dl <= j < n && v@[j] != ' ';
                assert(v@.skip(start + dl)[j - start - dl] == v@[j]);
            }
        }
    }
    if n <= start || n - start <= dl || only_spaces {
        if n > start {
            let mut out = chars_between(&v, 0, start);
            if n - start > dl {
                let rest = chars_between(&v, start + dl, n);
                push_str(&mut out, rest.as_str());
                proof {
                    assert(v@.subrange(start + dl, n as int) =~= v@.skip(start + dl));
                }
            } else {
                proof {
                    assert(out@ + Seq::<char>::empty() =~= out@);
                }
            }
            proof {
                assert(v@.subrange(0, start as int) =~= v@.take(start as int));
            }
            *text = out;
        }
        return;
    }
    let ghost s1;
    if v[start + dl] == ' ' {
        let mut out = chars_between(&v, 0, start);
        push_char(&mut out, ' ');
        let mid = chars_between(&v, start, start + dl);
        push_str(&mut out, mid.as_str());
        let tail = chars_between(&v, start + dl + 1, n);
        push_str(&mut out, tail.as_str());
        proof {
            s1 = v@.take(start as int) + seq![' '] + v@.subrange(start as int, start + dl) + v@.skip(start + dl + 1);
            assert(out@ =~= s1);
        }
        *text = out;
    } else {
        proof {
            s1 = v@;
        }
    }
    let before: usize = chars_of(text.as_str()).len();
    trim_right_space(text);
    let after: usize = chars_of(text.as_str()).len();
    push_str(text, delim);
    if before != after {
        push_char(text, ' ');
    }
    proof {
        assert(text@ =~= delimiter_closed(old(text)@, start as int, delim@));
    }
}

/// The attribute names that give the language of a code block.
pub open spec fn is_lang_attr_name(l: Seq<char>) -> bool {
    l == "data-lang"@ || l == "data-language"@
}

/// The value of the first language attribute of `a`.
pub open spec fn first_lang_attr(a: Seq<Attr>) -> Option<Seq<char>>
    decreases a.len(),
{
    if a.len() == 0 {
        None
    } else if is_lang_attr_name(a[0].name.local@) {
        Some(a[0].value@)
    } else {
        first_lang_attr(a.drop_first())
    }
}

/// An attribute value reduced to its first token, with only safe characters.
pub open spec fn sanitized(raw: Seq<char>) -> Seq<char> {
    first_token(raw).filter(|x: char| attr_safe(x))
}

/// The language that a node gives by attribute, sanitized.
pub open spec fn node_lang(d: NodeData) -> Option<Seq<char>> {
    match d {
        NodeData::Element(e) => match first_lang_attr(e.attrs@) {
            Some(v) => Some(sanitized(v)),
            None => None,
        },
        _ => None,
    }
}

/// The language of a code block as an attribute of the node states it.
pub fn find_code_lang_attribute(node: &TreeNode) -> (r: Option<String>)
    ensures
        opt_view(r) == node_lang(node.data),
{
    let e = match node.as_element() {
        Some(e) => e,
        None => {
            return None;
        },
    };
    let mut i: usize = 0;
    proof {
        assert(e.attrs@.skip(0) =~= e.attrs@);
    }
    while i < e.attrs.len()
        invariant
            i <= e.attrs.len(),
            node.data == NodeData::Element(*e),
            first_lang_attr(e.attrs@) == first_lang_attr(e.attrs@.skip(i as int)),
        decreases e.attrs.len() - i,
    {
        let a = &e.attrs[i];
        proof {
            assert(e.attrs@.skip(i as int)[0] == e.attrs@[i as int]);
            assert(e.attrs@.skip(i as int).drop_first() =~= e.attrs@.skip(i + 1));
        }
        if str_eq(a.name.local.as_str(), "data-lang") || str_eq(a.name.local.as_str(), "data-language") {
            return Some(sanitize_attr_value(a.value.as_str()));
        }
        i = i + 1;
    }
    proof {
        assert(e.attrs@.skip(i as int) =~= Seq::<Attr>::empty());
    }
    None
}

/// The node holds an `img` element.
pub open spec fn is_img(d: NodeData) -> bool {
    d matches NodeData::Element(e) && e.name.local@ == "img"@
}

/// Whether an `img` element lies below node `id`.
pub fn has_descendant_img(tree: &Tree, id: &NodeId) -> (r: bool)
    requires
        tree.wf(),
    ensures
        r == (tree.valid(id.value as int) && exists|j: int| 1 <= j < subtree(*tree, id.value).len()
            && #[trigger] is_img(tree.data(subtree(*tree, id.value)[j] as int))),
{
    if id.value >= tree.nodes.len() {
        return false;
    }
    let ids = subtree_ids(tree, id.value);
    let ghost s = subtree(*tree, id.value);
    let mut j: usize = 1;
    while j < ids.len()
        invariant
            tree.wf(),
            1 <= j,
            id.value < tree.len(),
            j <= ids.len() || ids.len() == 0,
            ids_of(ids@) == s,
            s == subtree(*tree, id.value),
            forall|i: int| 0 <= i < ids@.len() ==> (#[trigger] ids@[i]).value < tree.len(),
            forall|i: int| 1 <= i < j && i < s.len() ==> !#[trigger] is_img(tree.data(s[i] as int)),
        decreases ids.len() - j,
    {
        let n = &tree.nodes[ids[j].value];
        let found = match &n.data {
            NodeData::Element(e) => str_eq(e.name.local.as_str(), "img"),
            _ => false,
        };
        if found {
            assert(s[j as int] == ids@[j as int].value);
            assert(is_img(tree.data(s[j as int] as int)));
            return true;
        }
        j = j + 1;
    }
    false
}

/// The text has more than whitespace.
pub open spec fn nonblank(s: Seq<char>) -> bool {
    trim(s).len() > 0
}

/// The number of leading commas and ASCII whitespace characters of `s`.
pub open spec fn lead_comma_ws(s: Seq<char>) -> nat
    decreases s.len(),
{
    if s.len() > 0 && (s[0] == ',' || is_ascii_ws(s[0])) { 1 + lead_comma_ws(s.drop_first()) } else { 0 }
}

/// The address of the first candidate of a `srcset`: its first token after leading
/// commas and whitespace, without the commas that end it; none if that is empty.
pub open spec fn srcset_first(s: Seq<char>) -> Option<Seq<char>> {
    let r = s.skip(lead_comma_ws(s) as int);
    let u = r.take(word_len(r) as int);
    let w = u.take(u.len() - trail_run(u, ','));
    if w.len() > 0 { Some(w) } else { None }
}

/// The address of an image: a nonblank `src`, else the first `srcset` candidate,
/// else a nonblank `data-src`.
pub open spec fn img_src(a: Seq<Attr>) -> Option<Seq<char>> {
    let src = attr_value(a, "src"@);
    if src is Some && nonblank(src.unwrap()) {
        src
    } else {
        let ss = match attr_value(a, "srcset"@) {
            Some(v) => srcset_first(v),
            None => None,
        };
        if ss is Some {
            ss
        } else {
            let ds = attr_value(a, "data-src"@);
            if ds is Some && nonblank(ds.unwrap()) { ds } else { None }
        }
    }
}

/// The alt text of an image as Markdown writes it.
pub open spec fn img_alt_part(e: Element) -> Seq<char> {
    match attr_value(e.attrs@, "alt"@) {
        Some(a) => escape_brackets(a),
        None => Seq::empty(),
    }
}

/// The text with a title ` "title"` added, if there is one.
pub open spec fn with_title(t: Seq<char>, title: Option<Seq<char>>) -> Seq<char> {
    match title {
        Some(ti) => normalized_text(t + " \""@, ti, true) + "\""@,
        None => t,
    }
}

/// The text once image element `e` is written after `t`: `![alt](address "title")`,
/// with a `!` ending `t` escaped first; nothing for an image without an address.
pub open spec fn img_written(t: Seq<char>, e: Element) -> Seq<char> {
    match img_src(e.attrs@) {
        None => t,
        Some(src) => with_title(bang_escaped(t) + "!["@ + img_alt_part(e) + seq![']', '('] + link_destination(src),
            attr_value(e.attrs@, "title"@)) + seq![')'],
    }
}

fn is_blank(s: &str) -> (r: bool)
    ensures
        r == !nonblank(s@),
{
    let v = chars_of(s);
    trim_chars(v.as_slice()).len() == 0
}

/// The first candidate address of a `srcset` value.
pub fn srcset_first_url(s: &str) -> (r: Option<String>)
    ensures
        opt_view(r) == srcset_first(s@),
{
    let v = chars_of(s);
    let n = v.len();
    let mut i: usize = 0;
    proof {
        assert(v@.skip(0) =~= v@);
    }
    while i < n && (v[i] == ',' || is_ascii_whitespace(v[i]))
        invariant
            i <= n == v@.len(),
            lead_comma_ws(v@) == i + lead_comma_ws(v@.skip(i as int)),
        decreases n - i,
    {
        proof {
            assert(v@.skip(i as int)[0] == v@[i as int]);
            assert(v@.skip(i as int).drop_first() =~= v@.skip(i + 1));
        }
        i = i + 1;
    }
    proof {
        if i < n {
            assert(v@.skip(i as int)[0] == v@[i as int]);
        }
        assert(lead_comma_ws(v@.skip(i as int)) == 0);
    }
    let ghost r = v@.skip(i as int);
    let mut j: usize = i;
    while j < n && !is_ascii_whitespace(v[j])
        invariant
            i <= j <= n == v@.len(),
            r == v@.skip(i as int),
            word_len(r) == (j - i) + word_len(v@.skip(j as int)),
        decreases n - j,
    {
        proof {
            assert(v@.skip(j as int)[0] == v@[j as int]);
            assert(v@.skip(j as int).drop_first() =~= v@.skip(j + 1));
        }
        j = j + 1;
    }
    proof {
        if j < n {
            assert(v@.skip(j as int)[0] == v@[j as int]);
        }
        assert(word_len(v@.skip(j as int)) == 0);
    }
    let ghost u = r.take(word_len(r) as int);
    proof {
        assert(u =~= v@.subrange(i as int, j as int));
    }
    let mut k: usize = j;
    while k > i && v[k - 1] == ','
        invariant
            i <= k <= j,
            u == v@.subrange(i as int, j as int),
            j <= n == v@.len(),
            trail_run(u, ',') == (j - k) + trail_run(v@.subrange(i as int, k as int), ','),
        decreases k,
    {
        proof {
            assert(v@.subrange(i as int, k as int).drop_last() =~= v@.subrange(i as int, k - 1));
        }
        k = k - 1;
    }
    proof {
        if k > i {
            assert(v@.subrange(i as int, k as int).last() == v@[k - 1]);
        }
        assert(trail_run(v@.subrange(i as int, k as int), ',') == 0);
        assert(u.take(u.len() - trail_run(u, ',')) =~= v@.subrange(i as int, k as int));
    }
    if k > i {
        Some(chars_between(&v, i, k))
    } else {
        None
    }
}

/// The address of an image element (see [`img_src`]).
pub fn image_source(e: &Element) -> (r: Option<String>)
    ensures
        opt_view(r) == img_src(e.attrs@),
{
    if let Some(src) = e.attr("src") {
        if !is_blank(src.as_str()) {
            return Some(src);
        }
    }
    if let Some(ss) = e.attr("srcset") {
        if let Some(u) = srcset_first_url(ss.as_str()) {
            return Some(u);
        }
    }
    if let Some(ds) = e.attr("data-src") {
        if !is_blank(ds.as_str()) {
            return Some(ds);
        }
    }
    None
}

/// Writes an image node as Markdown (see [`img_written`]); other nodes write nothing.
#[verifier::rlimit(60)]
#[verifier::spinoff_prover]
pub fn write_img(text: &mut String, img_node: &TreeNode)
    ensures
        final(text)@ == (match img_node.data {
            NodeData::Element(e) => img_written(old(text)@, e),
            _ => old(text)@,
        }),
{
    let el = match img_node.as_element() {
        Some(e) => e,
        None => {
            return;
        },
    };
    let src = match image_source(el) {
        Some(s) => s,
        None => {
            return;
        },
    };
    let ghost e = *el;
    escape_trailing_bang(text);
    push_str(text, "![");
    let ghost t0 = text@;
    if let Some(alt) = el.attr("alt") {
        let a = md_image_alt(alt.as_str());
        push_str(text, a.as_str());
    }
    proof {
        assert(text@ == t0 + img_alt_part(e));
    }
    push_char(text, ']');
    push_char(text, '(');
    let dest = md_link_destination(src.as_str());
    push_str(text, dest.as_str());
    let ghost t1 = text@;
    proof {
        assert(t1 =~= bang_escaped(old(text)@) + "!["@ + img_alt_part(e) + seq![']', '('] + link_destination(src@));
    }
    let title = el.attr("title");
    match title {
        Some(ti) => {
            push_str(text, " \"");
            push_normalized_text(text, ti.as_str(), true);
            push_str(text, "\"");
        },
        None => {},
    }
    proof {
        assert(text@ == with_title(t1, attr_value(e.attrs@, "title"@)));
    }
    push_char(text, ')');
    proof {
        assert(text@ =~= with_title(t1, attr_value(e.attrs@, "title"@)) + seq![')']);
    }
}

pub proof fn lemma_lead_ascii_ws_stops(s: Seq<char>)
    ensures
        lead_ascii_ws(s) <= s.len(),
        lead_ascii_ws(s) < s.len() ==> !is_ascii_ws(s[lead_ascii_ws(s) as int]),
    decreases s.len(),
{
    if s.len() > 0 && is_ascii_ws(s[0]) {
        lemma_lead_ascii_ws_stops(s.drop_first());
        if lead_ascii_ws(s) < s.len() {
            assert(s.drop_first()[lead_ascii_ws(s.drop_first()) as int] == s[lead_ascii_ws(s) as int]);
        }
    }
}

pub proof fn lemma_word_len_bound(s: Seq<char>)
    ensures
        word_len(s) <= s.len(),
        s.len() > 0 && !is_ascii_ws(s[0]) ==> word_len(s) >= 1,
        word_len(s) < s.len() ==> is_ascii_ws(s[word_len(s) as int]),
        forall|i: int| 0 <= i < word_len(s) ==> !is_ascii_ws(#[trigger] s[i]),
    decreases s.len(),
{
    if s.len() > 0 && !is_ascii_ws(s[0]) {
        lemma_word_len_bound(s.drop_first());
        assert forall|i: int| 0 <= i < word_len(s) implies !is_ascii_ws(#[trigger] s[i]) by {
            if i > 0 {
                assert(s[i] == s.drop_first()[i - 1]);
            }
        }
        if word_len(s) < s.len() {
            assert(s.drop_first()[word_len(s.drop_first()) as int] == s[word_len(s) as int]);
        }
    }
}

/// The rest of the first ASCII-whitespace-separated word of `s` that starts with `p`,
/// with `p` taken off.
pub open spec fn prefixed_word(s: Seq<char>, p: Seq<char>) -> Option<Seq<char>>
    decreases s.len(),
{
    let r = s.skip(lead_ascii_ws(s) as int);
    if r.len() == 0 || lead_ascii_ws(s) > s.len() {
        None
    } else {
        let w = r.take(word_len(r) as int);
        if p.len() <= w.len() && w.take(p.len() as int) == p {
            Some(w.skip(p.len() as int))
        } else {
            proof {
                lemma_lead_ascii_ws_stops(s);
                lemma_word_len_bound(r);
            }
            prefixed_word(r.skip(word_len(r) as int), p)
        }
    }
}

/// The first child of `cs` at index `k` or later that is a `code` element.
pub open spec fn code_child_from(t: Tree, cs: Seq<usize>, k: int) -> Option<crate::node::Element>
    decreases cs.len() - k,
{
    if k < 0 || k >= cs.len() {
        None
    } else {
        match t.data(cs[k] as int) {
            NodeData::Element(e) => if e.name.local@ == "code"@ { Some(e) } else { code_child_from(t, cs, k + 1) },
            _ => code_child_from(t, cs, k + 1),
        }
    }
}

/// The language that the class of the first `code` child of `x` names, as
/// `language-xyz`, sanitized.
pub open spec fn class_language(t: Tree, x: int) -> Option<Seq<char>> {
    match code_child_from(t, t.children(x), 0) {
        Some(e) => match attr_value(e.attrs@, "class"@) {
            Some(v) => match prefixed_word(v, "language-"@) {
                Some(l) => Some(sanitized(l)),
                None => None,
            },
            None => None,
        },
        None => None,
    }
}

/// The first language that the attributes of the nodes of `ids` give.
pub open spec fn first_lang_of(t: Tree, ids: Seq<usize>) -> Option<Seq<char>>
    decreases ids.len(),
{
    if ids.len() == 0 {
        None
    } else {
        match node_lang(t.data(ids[0] as int)) {
            Some(l) => Some(l),
            None => first_lang_of(t, ids.drop_first()),
        }
    }
}

/// The language of code block `x`: by attribute on it, or on one of its three nearest
/// ancestors, or by the class of its first `code` child.
pub open spec fn code_language(t: Tree, x: int) -> Option<Seq<char>> {
    match node_lang(t.data(x)) {
        Some(l) => Some(l),
        None => match first_lang_of(t, crate::tree_api::limited(t.ancestors(x), Some(3usize))) {
            Some(l) => Some(l),
            None => class_language(t, x),
        },
    }
}

/// The rest of the first word of `s` that starts with `p`.
pub fn find_prefixed_word(s: &str, p: &str) -> (r: Option<String>)
    ensures
        opt_view(r) == prefixed_word(s@, p@),
{
    let v = chars_of(s);
    let pv = chars_of(p);
    let n = v.len();
    let mut i: usize = 0;
    proof {
        assert(v@.skip(0) =~= v@);
    }
    while i < n
        invariant
            i <= n == v@.len(),
            pv@ == p@,
            v@ == s@,
            prefixed_word(v@, p@) == prefixed_word(v@.skip(i as int), p@),
        decreases n - i,
    {
        let ghost s0 = v@.skip(i as int);
        let mut a = i;
        while a < n && is_ascii_whitespace(v[a])
            invariant
                i <= a <= n == v@.len(),
                forall|j: int| i <= j < a ==> is_ascii_ws(v@[j]),
            decreases n - a,
        {
            a = a + 1;
        }
        proof {
            lemma_lead_ascii_ws_stops(s0);
            assert(lead_ascii_ws(s0) == a - i) by {
                assert forall|j: int| 0 <= j < a - i implies is_ascii_ws(s0[j]) by {
                    assert(s0[j] == v@[i + j]);
                }
                if a < n {
                    assert(s0[a - i] == v@[a as int]);
                }
                lemma_lead_exact(s0, a - i);
            }
            assert(s0.skip(a - i) =~= v@.skip(a as int));
        }
        if a == n {
            proof {
                assert(v@.skip(a as int).len() == 0);
                assert(s0.skip(lead_ascii_ws(s0) as int).len() == 0);
                assert(prefixed_word(s0, p@) is None);
            }
            return None;
        }
        let mut b = a;
        while b < n && !is_ascii_whitespace(v[b])
            invariant
                a <= b <= n == v@.len(),
                forall|j: int| a <= j < b ==> !is_ascii_ws(v@[j]),
            decreases n - b,
        {
            b = b + 1;
        }
        let ghost r = v@.skip(a as int);
        proof {
            lemma_word_exact(r, b - a);
            assert(r.take(b - a) =~= v@.subrange(a as int, b as int));
            assert(r.skip(b - a) =~= v@.skip(b as int));
        }
        let plen = pv.len();
        proof {
            let w = r.take(word_len(r) as int);
            assert(s0.skip(lead_ascii_ws(s0) as int) == r);
            assert(r.len() > 0);
            assert(w == v@.subrange(a as int, b as int));
            if !(plen <= w.len() && w.take(plen as int) == p@) {
                assert(prefixed_word(s0, p@) == prefixed_word(r.skip(word_len(r) as int), p@));
                assert(r.skip(word_len(r) as int) == v@.skip(b as int));
            }
        }
        if plen <= b - a {
            let mut k: usize = 0;
            let mut same = true;
            while k < plen
                invariant
                    k <= plen <= b - a,
                    plen == pv@.len(),
                    b <= n == v@.len(),
                    same == (forall|j: int| 0 <= j < k ==> v@[a + j] == pv@[j]),
                decreases plen - k,
            {
                if v[a + k] != pv[k] {
                    same = false;
                }
                k = k + 1;
            }
            proof {
                let w = v@.subrange(a as int, b as int);
                if same {
                    assert(w.take(plen as int) =~= pv@);
                } else {
                    let j = choose|j: int| 0 <= j < plen && v@[a + j] != pv@[j];
                    assert(w.take(plen as int)[j] == v@[a + j]);
                }
            }
            if same {
                proof {
                    let w = r.take(word_len(r) as int);
                    assert(w.take(plen as int) == p@);
                    assert(prefixed_word(s0, p@) == Some(w.skip(plen as int)));
                    assert(v@.subrange(a as int, b as int).skip(plen as int) =~= v@.subrange(a + plen, b as int));
                }
                return Some(chars_between(&v, a + plen, b));
            }
        }
        i = b;
    }
    proof {
        assert(v@.skip(i as int).len() == 0);
        lemma_lead_ascii_ws_stops(v@.skip(i as int));
    }
    None
}

proof fn lemma_lead_exact(s: Seq<char>, k: int)
    requires
        0 <= k <= s.len(),
        forall|j: int| 0 <= j < k ==> is_ascii_ws(s[j]),
        k == s.len() || !is_ascii_ws(s[k]),
    ensures
        lead_ascii_ws(s) == k,
    decreases k,
{
    if k > 0 {
        lemma_lead_exact(s.drop_first(), k - 1);
    }
}

proof fn lemma_word_exact(s: Seq<char>, k: int)
    requires
        0 <= k <= s.len(),
        forall|j: int| 0 <= j < k ==> !is_ascii_ws(s[j]),
        k == s.len() || is_ascii_ws(s[k]),
    ensures
        word_len(s) == k,
    decreases k,
{
    if k > 0 {
        lemma_word_exact(s.drop_first(), k - 1);
    }
}

/// The language of code block `x` from the class of its first `code` child.
pub fn find_code_language_css_class(tree: &Tree, x: usize) -> (r: Option<String>)
    requires
        tree.wf(),
        x < tree.len(),
    ensures
        opt_view(r) == class_language(*tree, x as int),
{
    let cs = crate::subtree::child_ids(tree, x);
    let ghost s = tree.children(x as int);
    let mut k: usize = 0;
    while k < cs.len()
        invariant
            tree.wf(),
            k <= cs.len(),
            ids_of(cs@) == s,
            s == tree.children(x as int),
            forall|j: int| 0 <= j < cs@.len() ==> (#[trigger] cs@[j]).value < tree.len(),
            code_child_from(*tree, s, 0) == code_child_from(*tree, s, k as int),
        decreases cs.len() - k,
    {
        let c = cs[k].value;
        proof {
            assert(c == s[k as int]);
        }
        match tree.nodes[c].as_element() {
            Some(e) => {
                if str_eq(e.name.local.as_str(), "code") {
                    proof {
                        assert(code_child_from(*tree, s, k as int) == Some(*e));
                    }
                    return match e.class() {
                        Some(v) => {
                            proof {
                                reveal_strlit("class");
                                assert("class"@ =~= crate::element::lit_class());
                            }
                            match find_prefixed_word(v.as_str(), "language-") {
                                Some(l) => Some(sanitize_attr_value(l.as_str())),
                                None => None,
                            }
                        },
                        None => {
                            proof {
                                reveal_strlit("class");
                                assert("class"@ =~= crate::element::lit_class());
                            }
                            None
                        },
                    };
                }
            },
            None => {},
        }
        k = k + 1;
    }
    None
}

/// The language of code block `x` (see [`code_language`]).
pub fn find_code_language(tree: &Tree, x: usize) -> (r: Option<String>)
    requires
        tree.wf(),
        x < tree.len(),
    ensures
        opt_view(r) == code_language(*tree, x as int),
{
    if let Some(l) = find_code_lang_attribute(&tree.nodes[x]) {
        return Some(l);
    }
    let anc = tree.ancestor_ids_of(&NodeId::new(x), Some(3));
    let ghost ids = ids_of(anc@);
    let mut j: usize = 0;
    proof {
        assert(ids.skip(0) =~= ids);
        lemma_ancestors_in_tree(*tree, x as int);
        let a = tree.ancestors(x as int);
        assert forall|i: int| 0 <= i < anc@.len() implies (#[trigger] anc@[i]).value < tree.len() by {
            assert(ids[i] == anc@[i].value);
            if 3 < a.len() {
                assert(ids[i] == a[i]);
            }
        }
    }
    while j < anc.len()
        invariant
            tree.wf(),
            x < tree.len(),
            j <= anc.len(),
            ids == ids_of(anc@),
            ids == crate::tree_api::limited(tree.ancestors(x as int), Some(3usize)),
            forall|i: int| 0 <= i < anc@.len() ==> (#[trigger] anc@[i]).value < tree.len(),
            first_lang_of(*tree, ids) == first_lang_of(*tree, ids.skip(j as int)),
            node_lang(tree.data(x as int)) is None,
        decreases anc.len() - j,
    {
        let a = anc[j].value;
        proof {
            assert(ids.skip(j as int)[0] == a);
            assert(ids.skip(j as int).drop_first() =~= ids.skip(j + 1));
        }
        if let Some(l) = find_code_lang_attribute(&tree.nodes[a]) {
            proof {
                assert(first_lang_of(*tree, ids.skip(j as int)) == Some(l@));
            }
            return Some(l);
        }
        j = j + 1;
    }
    proof {
        assert(ids.skip(j as int).len() == 0);
    }
    find_code_language_css_class(tree, x)
}

/// `r` is the length of a run of backticks in `s`, and no run is longer.
pub open spec fn is_longest_run(s: Seq<char>, r: int) -> bool {
    (exists|i: int| is_tick_run(s, i, r)) && forall|i: int, k: int| is_tick_run(s, i, k) ==> k <= r
}

/// The length of the longest run of backticks in `s`.
pub open spec fn longest_tick_run(s: Seq<char>) -> int {
    choose|r: int| #[trigger] is_longest_run(s, r)
}

/// A fence of `n` backticks.
pub open spec fn fence(n: int) -> Seq<char> {
    Seq::new(n as nat, |i: int| '`')
}

/// The text once code block `x` is written after `text`: its text between fences
/// longer than any run of backticks in it (and of at least three), the opening one
/// followed by the language, if any.
pub open spec fn pre_written(t: Tree, x: int, text: Seq<char>) -> Seq<char> {
    let content = crate::subtree::texts(t, subtree(t, x as usize));
    let run = longest_tick_run(content);
    let f = fence(if run > 2 { run + 1 } else { 3 });
    text + seq!['\n'] + f + (match code_language(t, x) {
        Some(l) => l,
        None => Seq::empty(),
    }) + seq!['\n'] + content + seq!['\n'] + f + seq!['\n']
}

/// Writes code block `x` as a fenced block (see [`pre_written`]).
pub fn write_pre(tree: &Tree, x: usize, text: &mut String)
    requires
        tree.wf(),
        x < tree.len(),
    ensures
        final(text)@ == pre_written(*tree, x as int, old(text)@),
{
    let content = TreeNodeOps::text_of(tree, NodeId::new(x));
    let run = max_backtick_run(content.as_str());
    let ghost c = content@;
    proof {
        let w = choose|i: int| is_tick_run(c, i, run as int);
        assert(run <= c.len());
        let l = longest_tick_run(c);
        assert(is_longest_run(c, run as int));
        assert(is_longest_run(c, l));
        assert(exists|i: int| is_tick_run(c, i, l));
        let wl = choose|i: int| is_tick_run(c, i, l);
        assert(l <= run);
        assert(run <= l);
    }
    let base: usize = if run > 2 { run } else { 2 };
    let mut f = String::new();
    let mut k: usize = 0;
    while k < base
        invariant
            k <= base,
            f@ == fence(k as int),
        decreases base - k,
    {
        push_char(&mut f, '`');
        k = k + 1;
        proof {
            assert(f@ =~= fence(k as int));
        }
    }
    push_char(&mut f, '`');
    let ghost fl: int = base + 1;
    proof {
        assert(f@ =~= fence(fl));
    }
    push_char(text, '\n');
    push_str(text, f.as_str());
    let lang = find_code_language(tree, x);
    if let Some(l) = lang {
        push_str(text, l.as_str());
    }
    let ghost t1 = text@;
    push_char(text, '\n');
    push_str(text, content.as_str());
    push_char(text, '\n');
    push_str(text, f.as_str());
    push_char(text, '\n');
    proof {
        assert(t1 =~= old(text)@ + seq!['\n'] + fence(fl) + (match code_language(*tree, x as int) {
            Some(l) => l,
            None => Seq::empty(),
        }));
        assert(text@ =~= pre_written(*tree, x as int, old(text)@));
    }
}

/// The ancestors of a node are nodes of the tree.
pub proof fn lemma_ancestors_in_tree(t: Tree, x: int)
    requires
        t.wf(),
        0 <= x < t.len(),
    ensures
        forall|i: int| 0 <= i < t.ancestors(x).len() ==> #[trigger] t.ancestors(x)[i] < t.len(),
    decreases t.depth@[x],
{
    assert(crate::tree::node_ok(t.nodes@, t.chains@, t.pos@, t.depth@, x));
    if let Some(q) = t.parent(x) {
        if t.depth@[q as int] < t.depth@[x] {
            lemma_ancestors_in_tree(t, q as int);
            assert forall|i: int| 0 <= i < t.ancestors(x).len() implies #[trigger] t.ancestors(x)[i] < t.len() by {
                if i > 0 {
                    assert(t.ancestors(x)[i] == t.ancestors(q as int)[i - 1]);
                }
            }
        }
    }
}

} // verus!
