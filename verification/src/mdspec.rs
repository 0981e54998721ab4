//! What the Markdown serializer writes, as functions of the tree: the walk over the
//! nodes, the emphasis delimiters still open, and the writers of lists, links, code,
//! quotes and tables. Each writer takes the text written so far and gives the text
//! after it; `f` bounds the depth of the walk.
use vstd::prelude::*;
use crate::node::{NodeData, Element};
use crate::tree::Tree;
use crate::text::{ends_with, is_ws};
use crate::element::{attr_value, trim, lead_ws, trail_ws};
use crate::md::{FormatOpts, normalized_text, trim_right_spaces, with_linebreaks, link_destination, decimal, MAX_LIST_NUMBER, join_with};
use crate::mdwrite::{md_block_name, md_prefix_of, md_suffix_of, chosen_delim, delimiter_closed, cell_block_break, cell_break_trimmed,
    br_tag, bang_escaped, is_img, img_written, pre_written, longest_tick_run, fence, with_title};
use crate::subtree::{subtree, text_contents};
use crate::traversal::names_path;

verus! {

/// The text written so far and the emphasis delimiters still open: where each began
/// and which delimiter it is.
pub type MdState = (Seq<char>, Seq<(int, Seq<char>)>);

/// The line break of the options: `<br>` in table cells, else a line feed.
pub open spec fn lb_of(br: bool) -> Seq<char> {
    if br { br_tag() } else { seq!['\n'] }
}

/// The options with every flag off and no offset.
pub open spec fn plain_opts() -> FormatOpts {
    FormatOpts { include_node: false, ignore_linebreak: false, skip_escape: false, offset: 0, br: false, inline: false }
}

/// The local name of an element; nothing for other nodes.
pub open spec fn elem_local(d: NodeData) -> Option<Seq<char>> {
    match d {
        NodeData::Element(e) => Some(e.name.local@),
        _ => None,
    }
}

/// Elements written as emphasis.
pub open spec fn emph_name(l: Seq<char>) -> bool {
    l == "strong"@ || l == "b"@ || l == "em"@ || l == "i"@
}

/// Elements that have a writer of their own.
pub open spec fn special_name(l: Seq<char>) -> bool {
    l == "ul"@ || l == "ol"@ || l == "a"@ || l == "img"@ || l == "pre"@ || l == "blockquote"@ || l == "table"@ || l == "code"@
}

/// Where the innermost emphasis still open began.
pub open spec fn last_open(d: Seq<(int, Seq<char>)>) -> Option<int> {
    if d.len() > 0 { Some(d.last().0) } else { None }
}

/// The text once a block begins or ends: in a table cell a single line break, in
/// normal flow a blank line, and nothing where line breaks are ignored.
pub open spec fn block_break(s: Seq<char>, o: FormatOpts) -> Seq<char> {
    let lb = lb_of(o.br);
    if o.br && o.ignore_linebreak {
        cell_block_break(s, lb)
    } else if !o.ignore_linebreak {
        with_linebreaks(trim_right_spaces(s), lb, lb + lb)
    } else {
        s
    }
}

/// The text before the walk enters element `l`: the break of a block and the opening
/// marks (a heading's `#`, a rule, or an emphasis delimiter, which is recorded).
pub open spec fn md_opened(st: MdState, l: Seq<char>, o: FormatOpts) -> MdState {
    let t1 = if md_block_name(l) { block_break(st.0, o) } else { st.0 };
    match md_prefix_of(l) {
        Some(p) => if emph_name(l) {
            let d = chosen_delim(t1, p, last_open(st.1));
            (t1 + d, st.1.push((t1.len() as int, d)))
        } else {
            (t1 + p, st.1)
        },
        None => (t1, st.1),
    }
}

/// The text once the walk leaves element `l`: the closing delimiter of an emphasis,
/// then, unless a blank line ends the text already, the break of a block or, after
/// `br`, `li` and `tr`, a hard line break.
pub open spec fn md_closed(st: MdState, l: Seq<char>, o: FormatOpts) -> MdState {
    let lb = lb_of(o.br);
    let (t1, d1) = match md_suffix_of(l) {
        Some(sfx) => if st.1.len() > 0 {
            (delimiter_closed(st.0, st.1.last().0, st.1.last().1), st.1.drop_last())
        } else {
            (st.0 + sfx, st.1)
        },
        None => (st.0, st.1),
    };
    if ends_with(t1, lb + lb) {
        (t1, d1)
    } else if md_block_name(l) {
        (block_break(t1, o), d1)
    } else if l == "br"@ || l == "li"@ || l == "tr"@ {
        (trim_right_spaces(t1) + seq![' ', ' '] + lb, d1)
    } else {
        (t1, d1)
    }
}

/// `s` without its trailing whitespace.
pub open spec fn trim_end_ws(s: Seq<char>) -> Seq<char> {
    s.take(s.len() - trail_ws(s))
}

/// `s` without its leading whitespace.
pub open spec fn trim_start_ws(s: Seq<char>) -> Seq<char> {
    s.skip(lead_ws(s) as int)
}

/// `n` spaces.
pub open spec fn spaces(n: nat) -> Seq<char> {
    Seq::new(n, |i: int| ' ')
}

/// The number that `s` spells in decimal, digits only.
pub open spec fn digits_value(s: Seq<char>) -> int
    decreases s.len(),
{
    if s.len() == 0 {
        0
    } else {
        digits_value(s.drop_last()) * 10 + (s.last() as int - 48)
    }
}

/// `s` without a leading `+`.
pub open spec fn unsigned_digits(s: Seq<char>) -> Seq<char> {
    if s.len() > 0 && s[0] == '+' { s.drop_first() } else { s }
}

/// Every character of `s` is an ASCII digit.
pub open spec fn all_digits(s: Seq<char>) -> bool {
    forall|i: int| 0 <= i < s.len() ==> is_digit_char(#[trigger] s[i])
}

/// `c` is an ASCII digit.
pub open spec fn is_digit_char(c: char) -> bool {
    '0' <= c && c <= '9'
}

/// What parsing `s` as a `u64` gives: an optional `+` and at least one ASCII digit,
/// with a value that fits.
pub open spec fn parsed_u64(s: Seq<char>) -> Option<u64> {
    let d = unsigned_digits(s);
    if d.len() == 0 || !all_digits(d) || digits_value(d) > u64::MAX {
        None
    } else {
        Some(digits_value(d) as u64)
    }
}

/// A list number from an attribute value: the trimmed value parsed, capped at the
/// largest marker number.
pub open spec fn list_number(v: Option<Seq<char>>) -> Option<u64> {
    match v {
        Some(s) => match parsed_u64(trim(s)) {
            Some(n) => Some(if n < MAX_LIST_NUMBER { n } else { MAX_LIST_NUMBER }),
            None => None,
        },
        None => None,
    }
}

/// The marker and the next number once an item begins: numbered lists write the
/// number, others keep their marker.
pub open spec fn advanced(prefix: Seq<char>, next: Option<u64>) -> (Seq<char>, Option<u64>) {
    match next {
        Some(n) => (decimal(n) + seq!['.', ' '], Some(if n < MAX_LIST_NUMBER { (n + 1) as u64 } else { MAX_LIST_NUMBER })),
        None => (prefix, next),
    }
}

/// Node `c` is an element that is a block but not a list.
pub open spec fn block_not_list(t: Tree, c: usize) -> bool {
    match elem_local(t.data(c as int)) {
        Some(l) => md_block_name(l) && !(l == "ul"@ || l == "ol"@),
        None => false,
    }
}

/// Node `c` is a list.
pub open spec fn is_list_node(t: Tree, c: usize) -> bool {
    elem_local(t.data(c as int)) == Some("ul"@) || elem_local(t.data(c as int)) == Some("ol"@)
}

/// Node `c` has a child that is a block but not a list.
pub open spec fn has_block_child(t: Tree, c: usize) -> bool {
    exists|j: int| 0 <= j < t.children(c as int).len() && #[trigger] block_not_list(t, t.children(c as int)[j])
}

/// Node `c` is text with nothing but whitespace.
pub open spec fn invisible_text(t: Tree, c: usize) -> bool {
    match t.data(c as int) {
        NodeData::Text { contents } => trim(contents@).len() == 0,
        _ => false,
    }
}

/// The text of the nodes below `x` (and of `x` itself when `include`) as a link
/// body collects it: text nodes normalized, elements entered, other nodes left out.
pub open spec fn md_text_node(t: Tree, s: Seq<char>, x: usize, esc: bool, g: nat) -> Seq<char>
    decreases g, 0int,
{
    if g == 0 {
        s
    } else {
        match t.data(x as int) {
            NodeData::Text { contents } => normalized_text(s, contents@, esc),
            NodeData::Element(_) => md_text_seq(t, s, t.children(x as int), t.children(x as int).len() as int, esc, (g - 1) as nat),
            _ => s,
        }
    }
}

pub open spec fn md_text_seq(t: Tree, s: Seq<char>, cs: Seq<usize>, k: int, esc: bool, g: nat) -> Seq<char>
    decreases g, k,
{
    if k <= 0 {
        s
    } else {
        md_text_node(t, md_text_seq(t, s, cs, k - 1, esc, g), cs[k - 1], esc, g)
    }
}

/// Some text node below `x` holds a line break once trimmed.
pub open spec fn multiline_code(t: Tree, x: usize) -> bool {
    exists|j: int| 1 <= j < subtree(t, x).len() && #[trigger] has_inner_newline(t.data(subtree(t, x)[j] as int))
}

/// Text whose trimmed contents hold a line break.
pub open spec fn has_inner_newline(d: NodeData) -> bool {
    match d {
        NodeData::Text { contents } => trim(contents@).contains('\n'),
        _ => false,
    }
}

/// An element named `table` lies below `x`.
pub open spec fn has_inner_table(t: Tree, x: usize) -> bool {
    exists|j: int| 1 <= j < subtree(t, x).len() && #[trigger] elem_local(t.data(subtree(t, x)[j] as int)) == Some("table"@)
}

/// The common number of cells of the rows `rs[..k]`: zero while only rows without
/// cells were seen, then the count of the first row with cells; `None` once a later
/// row has another count.
pub open spec fn common_cells(t: Tree, rs: Seq<usize>, k: int) -> Option<int>
    decreases k,
{
    if k <= 0 {
        Some(0)
    } else {
        match common_cells(t, rs, k - 1) {
            None => None,
            Some(c) => {
                let n = row_cell_count(t, rs[k - 1]);
                if c == 0 { Some(n) } else if c != n { None } else { Some(c) }
            },
        }
    }
}

/// The number of `th` and `td` elements below row `r`.
pub open spec fn row_cell_count(t: Tree, r: usize) -> int {
    (names_path(t, r, seq!["th"@], 1).len() + names_path(t, r, seq!["td"@], 1).len()) as int
}

/// The rows of table `x`: the `tr` elements below it.
pub open spec fn table_rows(t: Tree, x: usize) -> Seq<usize> {
    names_path(t, x, seq!["tr"@], 1)
}

/// A table can be written as a Markdown table: no table inside it, and its rows
/// share one nonzero number of cells (rows before the first with cells aside).
pub open spec fn table_writable(t: Tree, x: usize) -> bool {
    &&& !has_inner_table(t, x)
    &&& common_cells(t, table_rows(t, x), table_rows(t, x).len() as int) matches Some(c) && c != 0
}

/// Node `c` is a `th` or `td` element.
pub open spec fn is_cell(t: Tree, c: usize) -> bool {
    elem_local(t.data(c as int)) == Some("th"@) || elem_local(t.data(c as int)) == Some("td"@)
}

/// The options of a table cell.
pub open spec fn cell_opts() -> FormatOpts {
    FormatOpts { ignore_linebreak: true, br: true, ..plain_opts() }
}

/// The number of bytes of `c` in UTF-8.
pub open spec fn utf8_len(c: char) -> nat {
    if (c as u32) < 0x80 { 1 } else if (c as u32) < 0x800 { 2 } else if (c as u32) < 0x10000 { 3 } else { 4 }
}

/// The number of bytes of `s` in UTF-8.
pub open spec fn utf8_size(s: Seq<char>) -> nat
    decreases s.len(),
{
    if s.len() == 0 { 0 } else { utf8_size(s.drop_last()) + utf8_len(s.last()) }
}

/// The delimiter cell under a heading: as many dashes as the heading has bytes, at least one.
pub open spec fn dashes(h: Seq<char>) -> Seq<char> {
    let n = utf8_size(h);
    Seq::new(if n > 0 { n } else { 1 }, |i: int| '-')
}

/// `n` cells of one space.
pub open spec fn blank_cells(n: nat) -> Seq<Seq<char>> {
    Seq::new(n, |i: int| seq![' '])
}

/// The rows of a Markdown table, each `| a | b |` and a line feed.
pub open spec fn table_lines(rows: Seq<Seq<Seq<char>>>) -> Seq<char>
    decreases rows.len(),
{
    if rows.len() == 0 {
        Seq::empty()
    } else {
        table_lines(rows.drop_last()) + seq!['|', ' '] + join_with(rows.last(), seq![' ', '|', ' ']) + seq![' ', '|', '\n']
    }
}

/// The text once a table with rows `rows` (at least one) is written after `s`: the
/// heading row (the first row when it holds only `th` cells, else blank cells), the
/// delimiter row, then the other rows, and a line feed.
pub open spec fn table_written(s: Seq<char>, rows: Seq<Seq<Seq<char>>>, has_header: bool) -> Seq<char> {
    let headings = if has_header { rows[0] } else { blank_cells(rows[0].len()) };
    let body = if has_header { rows.drop_first() } else { rows };
    s + seq!['\n', '|', ' '] + join_with(headings, seq![' ', '|', ' ']) + seq![' ', '|', '\n']
        + seq!['|', ' '] + join_with(headings.map_values(|h: Seq<char>| dashes(h)), seq![' ', '|', ' ']) + seq![' ', '|', '\n']
        + table_lines(body) + seq!['\n']
}

/// `s` without a carriage return at its end.
pub open spec fn strip_cr(s: Seq<char>) -> Seq<char> {
    if s.len() > 0 && s.last() == '\r' { s.drop_last() } else { s }
}

/// The quoted lines of the first characters of a text, and the line not yet ended:
/// each line ended by a line feed is written `> line` (without a carriage return
/// before the feed) and a line feed.
pub open spec fn quote_scan(s: Seq<char>) -> (Seq<char>, Seq<char>)
    decreases s.len(),
{
    if s.len() == 0 {
        (Seq::empty(), Seq::empty())
    } else {
        let (done, cur) = quote_scan(s.drop_last());
        if s.last() == '\n' {
            (done + seq!['>', ' '] + strip_cr(cur) + seq!['\n'], Seq::empty())
        } else {
            (done, cur.push(s.last()))
        }
    }
}

/// Each line of `s` written as `> line` and a line feed; a last line without a
/// feed counts when it is not empty.
pub open spec fn quoted(s: Seq<char>) -> Seq<char> {
    let (done, cur) = quote_scan(s);
    if cur.len() > 0 { done + seq!['>', ' '] + cur + seq!['\n'] } else { done }
}

/// The text once a code span with contents `code` is written: between single
/// backticks, or, when the contents hold backticks, between fences one longer than the
/// longest run of them, with a space inside each fence.
pub open spec fn code_span(s: Seq<char>, code: Seq<char>) -> Seq<char> {
    let run = longest_tick_run(code);
    if run == 0 {
        s + seq!['`'] + code + seq!['`']
    } else {
        s + fence(run + 1) + seq![' '] + code + seq![' '] + fence(run + 1)
    }
}

/// The text once a link with body `body` goes after `s`: `[body](address "title")`,
/// the body normalized unless it is Markdown already; nothing for an empty body.
pub open spec fn link_written(s: Seq<char>, e: Element, href: Seq<char>, body: Seq<char>, body_is_md: bool) -> Seq<char> {
    if body.len() == 0 {
        s
    } else {
        let s1 = bang_escaped(s) + seq!['['];
        let s2 = if body_is_md { s1 + body } else { normalized_text(s1, body, true) };
        with_title(s2 + seq![']', '('] + link_destination(href), attr_value(e.attrs@, "title"@)) + seq![')']
    }
}

// ---------------------------------------------------------------------------
// The walk
// ---------------------------------------------------------------------------

/// The state once node `x` is written: text normalized and escaped, an element
/// (unless skipped) opened, written by its own writer or through its children, and
/// closed; other nodes write nothing.
pub open spec fn md_open(t: Tree, st: MdState, x: usize, o: FormatOpts, skip: Seq<Seq<char>>, f: nat) -> MdState
    decreases f, 0int,
{
    if f == 0 {
        st
    } else {
        match t.data(x as int) {
            NodeData::Text { contents } => (normalized_text(st.0, contents@, !o.skip_escape), st.1),
            NodeData::Element(e) => {
                let l = e.name.local@;
                if skip.contains(l) {
                    st
                } else {
                    let st1 = md_opened(st, l, o);
                    if special_name(l) {
                        (md_special(t, st1.0, x, e, o, skip, (f - 1) as nat), st1.1)
                    } else {
                        let cs = t.children(x as int);
                        md_closed(md_seq(t, st1, cs, cs.len() as int, o, skip, (f - 1) as nat), l, o)
                    }
                }
            },
            _ => st,
        }
    }
}

/// The state once the first `k` nodes of `cs` are written, in order.
pub open spec fn md_seq(t: Tree, st: MdState, cs: Seq<usize>, k: int, o: FormatOpts, skip: Seq<Seq<char>>, f: nat) -> MdState
    decreases f, k,
{
    if f == 0 || k <= 0 {
        st
    } else {
        md_open(t, md_seq(t, st, cs, k - 1, o, skip, f), cs[k - 1], o, skip, f)
    }
}

/// The text once node `x` (or, without `include_node`, its children) is written
/// after `s`, with no emphasis open at the start. Without `include_node` the result
/// loses its trailing whitespace, and its leading whitespace too when `s` was empty.
pub open spec fn md_write(t: Tree, s: Seq<char>, x: usize, o: FormatOpts, skip: Seq<Seq<char>>, f: nat) -> Seq<char>
    decreases f, 0int,
{
    if f == 0 {
        s
    } else {
        let st0: MdState = (s, Seq::empty());
        if o.include_node {
            md_open(t, st0, x, o, skip, (f - 1) as nat).0
        } else {
            let cs = t.children(x as int);
            let a = trim_end_ws(md_seq(t, st0, cs, cs.len() as int, o, skip, (f - 1) as nat).0);
            if s.len() == 0 { trim_start_ws(a) } else { a }
        }
    }
}

/// The text once element `x` (data `e`) is written by its own writer.
pub open spec fn md_special(t: Tree, s: Seq<char>, x: usize, e: Element, o: FormatOpts, skip: Seq<Seq<char>>, f: nat) -> Seq<char>
    decreases f, 0int,
{
    let l = e.name.local@;
    if f == 0 {
        s
    } else if l == "ul"@ {
        md_list(t, s, x, if o.br { seq!['+', ' '] } else { seq!['-', ' '] }, o, None, skip, (f - 1) as nat)
    } else if l == "ol"@ {
        let start = match list_number(attr_value(e.attrs@, "start"@)) { Some(n) => n, None => 1u64 };
        md_list(t, s, x, seq!['1', '.', ' '], o, Some(start), skip, (f - 1) as nat)
    } else if l == "a"@ {
        md_link(t, s, x, e, skip, (f - 1) as nat)
    } else if l == "img"@ {
        img_written(s, e)
    } else if l == "pre"@ {
        pre_written(t, x as int, s)
    } else if l == "blockquote"@ {
        md_blockquote(t, s, x, skip, (f - 1) as nat)
    } else if l == "table"@ {
        md_table(t, s, x, skip, (f - 1) as nat)
    } else {
        md_code(t, s, x, skip, (f - 1) as nat)
    }
}

/// The text once list `x` is written: its items, each on a line of its own with the
/// list's indent and marker (numbered from `next` for ordered lists); other children
/// written on their own.
pub open spec fn md_list(t: Tree, s: Seq<char>, x: usize, prefix: Seq<char>, o: FormatOpts, next: Option<u64>,
    skip: Seq<Seq<char>>, f: nat) -> Seq<char>
    decreases f, 0int,
{
    if f == 0 {
        s
    } else {
        let inner = FormatOpts { offset: if o.offset < usize::MAX { (o.offset + 1) as usize } else { o.offset }, ..o };
        let cs = t.children(x as int);
        md_items(t, (s, prefix, next), cs, cs.len() as int, inner, lb_of(o.br), spaces((o.offset * 4) as nat), skip, (f - 1) as nat).0
    }
}

/// The text, marker and next number once the first `k` children of a list are written.
pub open spec fn md_items(t: Tree, st: (Seq<char>, Seq<char>, Option<u64>), cs: Seq<usize>, k: int, inner: FormatOpts,
    lb: Seq<char>, indent: Seq<char>, skip: Seq<Seq<char>>, f: nat) -> (Seq<char>, Seq<char>, Option<u64>)
    decreases f, k,
{
    if f == 0 || k <= 0 {
        st
    } else {
        md_item_step(t, md_items(t, st, cs, k - 1, inner, lb, indent, skip, f), cs[k - 1], inner, lb, indent, skip, f)
    }
}

/// The text, marker and next number once child `c` of a list is written: an item on
/// a line of its own with the list's indent and marker (its `value` renumbering it and
/// the ones after), its blocks under the marker; anything else written on its own.
pub open spec fn md_item_step(t: Tree, st: (Seq<char>, Seq<char>, Option<u64>), c: usize, inner: FormatOpts,
    lb: Seq<char>, indent: Seq<char>, skip: Seq<Seq<char>>, f: nat) -> (Seq<char>, Seq<char>, Option<u64>)
    decreases f, 0int,
{
    if f == 0 {
        st
    } else {
        let (s, prefix, next0) = st;
        let is_li = elem_local(t.data(c as int)) == Some("li"@);
        let next = if is_li && next0 is Some {
            match t.data(c as int) {
                NodeData::Element(e) => match list_number(attr_value(e.attrs@, "value"@)) {
                    Some(v) => Some(v),
                    None => next0,
                },
                _ => next0,
            }
        } else {
            next0
        };
        if is_li {
            let (p2, n2) = advanced(prefix, next);
            let s1 = trim_right_spaces(s) + indent + p2;
            if has_block_child(t, c) {
                let bindent = indent + spaces(p2.len());
                let gs = t.children(c as int);
                (md_item_blocks(t, (s1, true, false), gs, gs.len() as int, inner, lb, bindent, skip, (f - 1) as nat).0, p2, n2)
            } else {
                (md_write(t, s1, c, inner, skip, (f - 1) as nat) + lb, p2, n2)
            }
        } else {
            (md_write(t, s, c, FormatOpts { include_node: true, ..plain_opts() }, skip, (f - 1) as nat), prefix, next)
        }
    }
}

/// The text once the first `k` children of a list item with blocks are written,
/// with whether the first block is still to come and whether inline content was seen:
/// blocks go on lines of their own under the marker, each followed by a blank line.
pub open spec fn md_item_blocks(t: Tree, st: (Seq<char>, bool, bool), cs: Seq<usize>, k: int, inner: FormatOpts,
    lb: Seq<char>, bindent: Seq<char>, skip: Seq<Seq<char>>, f: nat) -> (Seq<char>, bool, bool)
    decreases f, k,
{
    if f == 0 || k <= 0 {
        st
    } else {
        let (s, first, seen) = md_item_blocks(t, st, cs, k - 1, inner, lb, bindent, skip, f);
        let c = cs[k - 1];
        if block_not_list(t, c) {
            let s1 = if first {
                if seen { trim_right_spaces(s) + lb + bindent } else { s }
            } else {
                s + bindent
            };
            (md_write(t, s1, c, inner, skip, (f - 1) as nat) + lb + lb, false, seen)
        } else {
            let seen2 = seen || (!is_list_node(t, c) && !invisible_text(t, c));
            (md_write(t, s, c, FormatOpts { include_node: true, ..inner }, skip, (f - 1) as nat), first, seen2)
        }
    }
}

/// The text once link `x` (data `e`) is written: with an address, its text (or,
/// when it holds an image or no text, its children written as Markdown) as the body
/// of `[body](address)`; without one, its children written as they are.
pub open spec fn md_link(t: Tree, s: Seq<char>, x: usize, e: Element, skip: Seq<Seq<char>>, f: nat) -> Seq<char>
    decreases f, 0int,
{
    if f == 0 {
        s
    } else {
        match attr_value(e.attrs@, "href"@) {
            Some(href) => {
                let has_img = exists|j: int| 1 <= j < subtree(t, x).len() && #[trigger] is_img(t.data(subtree(t, x)[j] as int));
                let plain = md_text_node(t, Seq::empty(), x, false, t.len());
                let body_is_md = has_img || plain.len() == 0;
                let body = if body_is_md { md_write(t, Seq::empty(), x, plain_opts(), skip, (f - 1) as nat) } else { plain };
                link_written(s, e, href, body, body_is_md)
            },
            None => md_write(t, s, x, plain_opts(), skip, (f - 1) as nat),
        }
    }
}

/// The text once code element `x` is written: as a fenced block when a text below it
/// spans lines, else as a code span of its children written without escapes.
pub open spec fn md_code(t: Tree, s: Seq<char>, x: usize, skip: Seq<Seq<char>>, f: nat) -> Seq<char>
    decreases f, 0int,
{
    if f == 0 {
        s
    } else if multiline_code(t, x) {
        pre_written(t, x as int, s)
    } else {
        code_span(s, md_write(t, Seq::empty(), x, FormatOpts { skip_escape: true, ..plain_opts() }, skip, (f - 1) as nat))
    }
}

/// The text once quote `x` is written: its children written on their own, each line
/// behind `> `, after a blank line and followed by one; nothing when they write nothing.
pub open spec fn md_blockquote(t: Tree, s: Seq<char>, x: usize, skip: Seq<Seq<char>>, f: nat) -> Seq<char>
    decreases f, 0int,
{
    if f == 0 {
        s
    } else {
        let q = md_write(t, Seq::empty(), x, plain_opts(), skip, (f - 1) as nat);
        if q.len() == 0 {
            s
        } else {
            with_linebreaks(s, seq!['\n'], seq!['\n', '\n']) + quoted(q) + seq!['\n']
        }
    }
}

/// The text once table `x` is written: as a Markdown table when it can be one and
/// has cells, else its children written as they are.
pub open spec fn md_table(t: Tree, s: Seq<char>, x: usize, skip: Seq<Seq<char>>, f: nat) -> Seq<char>
    decreases f, 0int,
{
    if f == 0 {
        s
    } else if !table_writable(t, x) {
        md_write(t, s, x, plain_opts(), skip, (f - 1) as nat)
    } else {
        let rs = table_rows(t, x);
        let (rows, has_header) = md_rows(t, (Seq::empty(), false), rs, rs.len() as int, skip, (f - 1) as nat);
        if rows.len() == 0 {
            md_write(t, s, x, plain_opts(), skip, (f - 1) as nat)
        } else {
            table_written(s, rows, has_header)
        }
    }
}

/// The rows written from the first `k` of `rs` that hold cells, and whether the first
/// of them holds only `th` cells.
pub open spec fn md_rows(t: Tree, st: (Seq<Seq<Seq<char>>>, bool), rs: Seq<usize>, k: int, skip: Seq<Seq<char>>, f: nat)
    -> (Seq<Seq<Seq<char>>>, bool)
    decreases f, k,
{
    if f == 0 || k <= 0 {
        st
    } else {
        let (rows, has_header) = md_rows(t, st, rs, k - 1, skip, f);
        let cs = t.children(rs[k - 1] as int);
        let (row, all_th) = md_cells(t, (Seq::empty(), true), cs, cs.len() as int, skip, (f - 1) as nat);
        if row.len() == 0 {
            (rows, has_header)
        } else {
            (rows.push(row), if rows.len() == 0 { all_th } else { has_header })
        }
    }
}

/// The cells written from the first `k` children of a row, and whether all are `th`.
pub open spec fn md_cells(t: Tree, st: (Seq<Seq<char>>, bool), cs: Seq<usize>, k: int, skip: Seq<Seq<char>>, f: nat)
    -> (Seq<Seq<char>>, bool)
    decreases f, k,
{
    if f == 0 || k <= 0 {
        st
    } else {
        let (row, all_th) = md_cells(t, st, cs, k - 1, skip, f);
        let c = cs[k - 1];
        if is_cell(t, c) {
            let w = cell_break_trimmed(md_write(t, Seq::empty(), c, cell_opts(), skip, (f - 1) as nat));
            (row.push(w), all_th && elem_local(t.data(c as int)) == Some("th"@))
        } else {
            (row, all_th)
        }
    }
}

/// The default tags that Markdown leaves out.
pub open spec fn default_skip() -> Seq<Seq<char>> {
    seq!["script"@, "style"@, "meta"@, "head"@]
}

/// The fuel that a walk over tree `t` starts with: enough for every level of it.
pub open spec fn md_fuel(t: Tree) -> nat {
    8 * t.len() + 8
}

/// The Markdown of node `x` (itself included or not), leaving out the elements named
/// in `skip` and what lies below them.
pub open spec fn markdown(t: Tree, x: usize, include_node: bool, skip: Seq<Seq<char>>) -> Seq<char> {
    md_write(t, Seq::empty(), x, FormatOpts { include_node: include_node, ..plain_opts() }, skip, md_fuel(t))
}

} // verus!
