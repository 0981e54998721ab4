//! The Markdown serializer: a walk over a node and what lies below it that writes
//! headings, emphasis, lists, links, images, code, quotes and tables as Markdown,
//! exactly as [`crate::mdspec::markdown`] says.
use vstd::prelude::*;
use crate::node::{NodeId, NodeData, Element, TreeNode};
use crate::tree::Tree;
use crate::noderef::NodeRef;
use crate::sink::Document;
use crate::text::{chars_of, push_char, push_str, str_eq, is_whitespace, is_ws, chars_ends_with, ends_with};
use crate::element::{attr_value, trim, trim_chars, lead_ws, trail_ws, opt_view};
use crate::md::{FormatOpts, normalized_text, push_normalized_text, trim_right_space, trim_right_spaces, add_linebreaks, with_linebreaks,
    md_link_destination, link_destination, decimal, decimal_string, MAX_LIST_NUMBER, join_strings, join_with, string_views, linebreak,
    max_backtick_run, is_tick_run};
use crate::mdwrite::{md_block_name, md_prefix_of, md_suffix_of, is_md_block, md_prefix, md_suffix, is_emphasis_delim, choose_emphasis_delimiter,
    push_delimiter, add_cell_block_break, trim_trailing_cell_break, br_tag, escape_trailing_bang, bang_escaped, has_descendant_img, is_img,
    write_img, write_pre, longest_tick_run, is_longest_run, fence, with_title};
use crate::mdspec::{MdState, lb_of, plain_opts, elem_local, emph_name, special_name, last_open, block_break, md_opened, md_closed,
    trim_end_ws, trim_start_ws, spaces, digits_value, parsed_u64, list_number, advanced, block_not_list, is_list_node, has_block_child,
    invisible_text, md_text_node, md_text_seq, multiline_code, has_inner_newline, has_inner_table, common_cells, row_cell_count,
    table_rows, table_writable, unsigned_digits, all_digits, is_digit_char, is_cell, cell_opts, utf8_len, utf8_size, dashes, blank_cells, table_lines, table_written, strip_cr,
    quote_scan, quoted, code_span, link_written, md_open, md_seq, md_write, md_special, md_list, md_items, md_item_blocks, md_link,
    md_code, md_item_step, md_blockquote, md_table, md_rows, md_cells, default_skip, md_fuel, markdown};
use crate::subtree::{subtree, child_ids, subtree_ids};
use crate::query::ids_of;
use crate::traversal::{Traversal, names_path, str_views};

verus! {

/// The delimiters still open, as positions and texts.
pub open spec fn delim_views(v: Seq<(usize, &'static str)>) -> Seq<(int, Seq<char>)> {
    v.map_values(|p: (usize, &'static str)| (p.0 as int, p.1@))
}

/// The characters of `v` from `lo` to `hi`, as a string.
fn take_chars(v: &Vec<char>, lo: usize, hi: usize) -> (r: String)
    requires
        lo <= hi <= v.len(),
    ensures
        r@ == v@.subrange(lo as int, hi as int),
{
    let mut out = String::new();
    let mut i = lo;
    while i < hi
        invariant
            lo <= i <= hi <= v.len(),
            out@ == v@.subrange(lo as int, i as int),
        decreases hi - i,
    {
        push_char(&mut out, v[i]);
        i = i + 1;
        proof {
            assert(out@ =~= v@.subrange(lo as int, i as int));
        }
    }
    out
}

/// Drops the trailing whitespace of the text.
fn trim_end_whitespace(text: &mut String)
    ensures
        final(text)@ == trim_end_ws(old(text)@),
{
    let v = chars_of(text.as_str());
    let n = v.len();
    let mut j = n;
    proof {
        assert(v@.take(n as int) =~= v@);
    }
    while j > 0 && is_whitespace(v[j - 1])
        invariant
            j <= n == v@.len(),
            trail_ws(v@) == (n - j) + trail_ws(v@.take(j as int)),
        decreases j,
    {
        proof {
            assert(v@.take(j as int).drop_last() =~= v@.take(j - 1));
            assert(v@.take(j as int).last() == v@[j - 1]);
        }
        j = j - 1;
    }
    proof {
        if j > 0 {
            assert(v@.take(j as int).last() == v@[j - 1]);
        }
        assert(trail_ws(v@.take(j as int)) == 0);
    }
    let out = take_chars(&v, 0, j);
    proof {
        assert(out@ =~= trim_end_ws(old(text)@));
    }
    *text = out;
}

/// Drops the leading whitespace of the text.
fn trim_start_whitespace(text: &mut String)
    ensures
        final(text)@ == trim_start_ws(old(text)@),
{
    let v = chars_of(text.as_str());
    let n = v.len();
    let mut i: usize = 0;
    proof {
        assert(v@.skip(0) =~= v@);
    }
    while i < n && is_whitespace(v[i])
        invariant
            i <= n == v@.len(),
            lead_ws(v@) == i + lead_ws(v@.skip(i as int)),
        decreases n - i,
    {
        proof {
            assert(v@.skip(i as int).drop_first() =~= v@.skip(i + 1));
            assert(v@.skip(i as int)[0] == v@[i as int]);
        }
        i = i + 1;
    }
    proof {
        if i < n {
            assert(v@.skip(i as int)[0] == v@[i as int]);
        }
        assert(lead_ws(v@.skip(i as int)) == 0);
    }
    let out = take_chars(&v, i, n);
    proof {
        assert(out@ =~= trim_start_ws(old(text)@));
    }
    *text = out;
}

/// Whether `l` is one of the names of `skip`.
fn names_contain(skip: &Vec<String>, l: &str) -> (r: bool)
    ensures
        r == string_views(skip@).contains(l@),
{
    let mut i: usize = 0;
    while i < skip.len()
        invariant
            i <= skip.len(),
            forall|j: int| 0 <= j < i ==> skip@[j]@ != l@,
        decreases skip.len() - i,
    {
        if str_eq(skip[i].as_str(), l) {
            proof {
                assert(string_views(skip@)[i as int] == l@);
            }
            return true;
        }
        i = i + 1;
    }
    proof {
        if string_views(skip@).contains(l@) {
            let j = choose|j: int| 0 <= j < string_views(skip@).len() && string_views(skip@)[j] == l@;
            assert(skip@[j]@ == l@);
        }
    }
    false
}

proof fn lemma_digits_grow(s: Seq<char>, k: int)
    requires
        0 <= k <= s.len(),
        forall|i: int| 0 <= i < s.len() ==> is_digit_char(#[trigger] s[i]),
    ensures
        digits_value(s.take(k)) <= digits_value(s),
        0 <= digits_value(s.take(k)),
    decreases s.len() - k,
{
    lemma_digits_nonneg(s.take(k));
    if k < s.len() {
        lemma_digits_grow(s, k + 1);
        assert(s.take(k + 1).drop_last() =~= s.take(k));
        assert(s.take(k + 1).last() == s[k]);
    } else {
        assert(s.take(k) =~= s);
    }
}

proof fn lemma_digits_nonneg(s: Seq<char>)
    requires
        forall|i: int| 0 <= i < s.len() ==> is_digit_char(#[trigger] s[i]),
    ensures
        0 <= digits_value(s),
    decreases s.len(),
{
    if s.len() > 0 {
        let d = s.drop_last();
        assert forall|i: int| 0 <= i < d.len() implies is_digit_char(#[trigger] d[i]) by {
            assert(d[i] == s[i]);
        }
        lemma_digits_nonneg(d);
        assert(s[s.len() - 1] == s.last());
    }
}

/// Parses a decimal number as `u64` parsing does: an optional `+`, then ASCII
/// digits, with a value that fits.
pub fn parse_u64(s: &str) -> (r: Option<u64>)
    ensures
        r == parsed_u64(s@),
{
    let v = chars_of(s);
    let start: usize = if v.len() > 0 && v[0] == '+' { 1 } else { 0 };
    let ghost d = unsigned_digits(s@);
    proof {
        assert(d =~= v@.skip(start as int));
    }
    if start >= v.len() {
        proof {
            assert(d.len() == 0);
            assert(parsed_u64(s@) is None);
        }
        return None;
    }
    let mut i = start;
    while i < v.len()
        invariant
            start <= i <= v.len(),
            d == v@.skip(start as int),
            d == unsigned_digits(s@),
            forall|j: int| start <= j < i ==> is_digit_char(#[trigger] v@[j]),
        decreases v.len() - i,
    {
        if v[i] < '0' || v[i] > '9' {
            proof {
                assert(d[i - start] == v@[i as int]);
                assert(!is_digit_char(d[i - start]));
            }
            return None;
        }
        i = i + 1;
    }
    proof {
        assert forall|j: int| 0 <= j < d.len() implies is_digit_char(#[trigger] d[j]) by {
            assert(d[j] == v@[start + j]);
        }
    }
    let mut val: u64 = 0;
    let mut i = start;
    proof {
        assert(d.take(0) =~= Seq::<char>::empty());
    }
    while i < v.len()
        invariant
            start <= i <= v.len(),
            d == v@.skip(start as int),
            d == unsigned_digits(s@),
            forall|j: int| 0 <= j < d.len() ==> is_digit_char(#[trigger] d[j]),
            val as int == digits_value(d.take(i - start)),
        decreases v.len() - i,
    {
        let c = v[i];
        proof {
            assert(c == d[i - start]);
            assert(d.take(i - start + 1).drop_last() =~= d.take(i - start));
            assert(d.take(i - start + 1).last() == c);
        }
        let digit: u64 = (c as u32 - 48) as u64;
        proof {
            assert(digit as int == c as int - 48);
            assert(digits_value(d.take(i - start + 1)) == val * 10 + digit);
        }
        match val.checked_mul(10) {
            Some(m) => match m.checked_add(digit) {
                Some(nv) => {
                    val = nv;
                },
                None => {
                    proof {
                        lemma_digits_grow(d, i - start + 1);
                        assert(digits_value(d) > u64::MAX);
                    }
                    return None;
                },
            },
            None => {
                proof {
                    lemma_digits_grow(d, i - start + 1);
                    assert(val * 10 > u64::MAX);
                    assert(digits_value(d) > u64::MAX);
                }
                return None;
            },
        }
        i = i + 1;
    }
    proof {
        assert(d.take(i - start) =~= d);
    }
    Some(val)
}

/// A list number from an attribute value (see [`list_number`]).
pub fn list_number_of(v: Option<String>) -> (r: Option<u64>)
    ensures
        r == list_number(opt_view(v)),
{
    match v {
        Some(s) => {
            let cv = chars_of(s.as_str());
            let tv = trim_chars(cv.as_slice());
            let ts = crate::text::string_from(tv.as_slice());
            match parse_u64(ts.as_str()) {
                Some(n) => Some(if n < MAX_LIST_NUMBER { n } else { MAX_LIST_NUMBER }),
                None => None,
            }
        },
        None => None,
    }
}

/// The local name of node `c`, when it is an element.
fn local_of(tree: &Tree, c: usize) -> (r: Option<&str>)
    requires
        c < tree.len(),
    ensures
        match r {
            Some(l) => elem_local(tree.data(c as int)) == Some(l@),
            None => elem_local(tree.data(c as int)) is None,
        },
{
    match &tree.nodes[c].data {
        NodeData::Element(e) => Some(e.name.local.as_str()),
        _ => None,
    }
}

/// Whether node `c` is an element named `name`.
fn named(tree: &Tree, c: usize, name: &str) -> (r: bool)
    requires
        c < tree.len(),
    ensures
        r == (elem_local(tree.data(c as int)) == Some(name@)),
{
    match local_of(tree, c) {
        Some(l) => str_eq(l, name),
        None => false,
    }
}

/// Whether node `c` is a block but not a list.
fn block_not_list_of(tree: &Tree, c: usize) -> (r: bool)
    requires
        c < tree.len(),
    ensures
        r == block_not_list(*tree, c),
{
    match &tree.nodes[c].data {
        NodeData::Element(e) => is_md_block(&e.name) && !crate::mdwrite::is_list(&e.name),
        _ => false,
    }
}

/// Whether node `c` is a list.
fn is_list_node_of(tree: &Tree, c: usize) -> (r: bool)
    requires
        c < tree.len(),
    ensures
        r == is_list_node(*tree, c),
{
    proof {
        reveal_strlit("ul");
        reveal_strlit("ol");
    }
    named(tree, c, "ul") || named(tree, c, "ol")
}

/// Whether node `c` is text with nothing but whitespace.
fn invisible_text_of(tree: &Tree, c: usize) -> (r: bool)
    requires
        c < tree.len(),
    ensures
        r == invisible_text(*tree, c),
{
    match &tree.nodes[c].data {
        NodeData::Text { contents } => {
            let cv = chars_of(contents.as_str());
            trim_chars(cv.as_slice()).len() == 0
        },
        _ => false,
    }
}

/// Whether a child of node `c` is a block but not a list.
fn has_block_child_of(tree: &Tree, c: usize) -> (r: bool)
    requires
        tree.wf(),
        c < tree.len(),
    ensures
        r == has_block_child(*tree, c),
{
    let cs = child_ids(tree, c);
    let ghost s = tree.children(c as int);
    proof {
        crate::normalize::lemma_kids(*tree, c as int);
    }
    let mut j: usize = 0;
    while j < cs.len()
        invariant
            tree.wf(),
            c < tree.len(),
            j <= cs.len(),
            ids_of(cs@) == s,
            s == tree.children(c as int),
            forall|i: int| 0 <= i < s.len() ==> #[trigger] s[i] < tree.len(),
            forall|i: int| 0 <= i < j ==> !#[trigger] block_not_list(*tree, s[i]),
        decreases cs.len() - j,
    {
        let g = cs[j].value;
        proof {
            assert(s[j as int] == g);
        }
        if block_not_list_of(tree, g) {
            return true;
        }
        j = j + 1;
    }
    false
}

/// The nodes that a search for descendants reaches lie in the tree.
proof fn lemma_collect_valid(t: Tree, x: usize, m: crate::minisel::SelModel, last: bool, fuel: nat)
    requires
        t.wf(),
        x < t.len(),
    ensures
        forall|i: int| 0 <= i < crate::minimatch::collect(t, x, m, last, fuel).len()
            ==> #[trigger] crate::minimatch::collect(t, x, m, last, fuel)[i] < t.len(),
    decreases fuel, 0int, 0int,
{
    if fuel > 0 {
        crate::normalize::lemma_kids(t, x as int);
        let cs = t.children(x as int);
        lemma_collect_forest_valid(t, cs, cs.len() as int, m, last, (fuel - 1) as nat);
        assert(crate::minimatch::collect(t, x, m, last, fuel) == crate::minimatch::collect_forest(t, cs, cs.len() as int, m, last, (fuel - 1) as nat));
    }
}

proof fn lemma_collect_forest_valid(t: Tree, cs: Seq<usize>, k: int, m: crate::minisel::SelModel, last: bool, fuel: nat)
    requires
        t.wf(),
        k <= cs.len(),
        forall|j: int| 0 <= j < cs.len() ==> #[trigger] cs[j] < t.len(),
    ensures
        forall|i: int| 0 <= i < crate::minimatch::collect_forest(t, cs, k, m, last, fuel).len()
            ==> #[trigger] crate::minimatch::collect_forest(t, cs, k, m, last, fuel)[i] < t.len(),
    decreases fuel, 1int, k,
{
    if k > 0 {
        lemma_collect_forest_valid(t, cs, k - 1, m, last, fuel);
        let c = cs[k - 1];
        lemma_collect_valid(t, c, m, last, fuel);
        let a = crate::minimatch::collect_forest(t, cs, k - 1, m, last, fuel);
        let r = crate::minimatch::collect_forest(t, cs, k, m, last, fuel);
        let hit = crate::minimatch::node_matches(m, t.node(c as int));
        let below = crate::minimatch::collect(t, c, m, last, fuel);
        assert forall|i: int| 0 <= i < r.len() implies #[trigger] r[i] < t.len() by {
            if i >= a.len() {
                if t.data(c as int) is Element {
                    let mid = if hit { seq![c] } else { Seq::<usize>::empty() };
                    let tail = if !hit || last { below } else { Seq::<usize>::empty() };
                    assert(r == a + (mid + tail));
                    if i - a.len() >= mid.len() {
                        assert(r[i] == tail[i - a.len() - mid.len()]);
                    }
                }
            }
        }
    }
}

/// The nodes found below `x` by one name lie in the tree.
proof fn lemma_names_path_valid(t: Tree, x: usize, name: Seq<char>)
    requires
        t.wf(),
        x < t.len(),
    ensures
        forall|i: int| 0 <= i < names_path(t, x, seq![name], 1).len() ==> #[trigger] names_path(t, x, seq![name], 1)[i] < t.len(),
{
    let m = crate::traversal::name_model(name);
    let st = seq![x];
    assert(names_path(t, x, seq![name], 0) == st);
    assert(crate::minimatch::step(t, st.drop_last(), m, crate::minisel::Combinator::Descendant, true) == Seq::<usize>::empty());
    assert(names_path(t, x, seq![name], 1) == crate::minimatch::collect(t, x, m, true, t.len()));
    lemma_collect_valid(t, x, m, true, t.len());
}

/// The ids found below `x` by one name.
fn find_named(tree: &Tree, x: usize, name: &str) -> (r: Vec<NodeId>)
    requires
        tree.wf(),
        x < tree.len(),
    ensures
        ids_of(r@) == names_path(*tree, x, seq![name@], 1),
        forall|i: int| 0 <= i < r@.len() ==> (#[trigger] r@[i]).value < tree.len(),
{
    let path: Vec<&str> = vec![name];
    proof {
        assert(str_views(path@) =~= seq![name@]);
    }
    let r = Traversal::find_descendant_elements(tree, NodeId::new(x), path.as_slice());
    proof {
        lemma_names_path_valid(*tree, x, name@);
        assert forall|i: int| 0 <= i < r@.len() implies (#[trigger] r@[i]).value < tree.len() by {
            assert(ids_of(r@)[i] == r@[i].value);
        }
    }
    r
}

/// The text of what lies below `x` as a link body collects it (see [`md_text_node`]).
fn write_text(tree: &Tree, text: &mut String, x: usize, esc: bool, g: usize)
    requires
        tree.wf(),
        x < tree.len(),
    ensures
        final(text)@ == md_text_node(*tree, old(text)@, x, esc, g as nat),
    decreases g,
{
    if g == 0 {
        return;
    }
    match &tree.nodes[x].data {
        NodeData::Text { contents } => {
            push_normalized_text(text, contents.as_str(), esc);
        },
        NodeData::Element(_) => {
            let cs = child_ids(tree, x);
            let ghost s0 = text@;
            let ghost ch = tree.children(x as int);
            proof {
                crate::normalize::lemma_kids(*tree, x as int);
            }
            let mut k: usize = 0;
            while k < cs.len()
                invariant
                    tree.wf(),
                    x < tree.len(),
                    g > 0,
                    k <= cs.len(),
                    ids_of(cs@) == ch,
                    ch == tree.children(x as int),
                    forall|i: int| 0 <= i < ch.len() ==> #[trigger] ch[i] < tree.len(),
                    text@ == md_text_seq(*tree, s0, ch, k as int, esc, (g - 1) as nat),
                decreases cs.len() - k,
            {
                let c = cs[k].value;
                proof {
                    assert(ch[k as int] == c);
                }
                write_text(tree, text, c, esc, g - 1);
                k = k + 1;
            }
        },
        _ => {},
    }
}

/// Whether a text below `x` holds a line break once trimmed.
fn multiline_code_of(tree: &Tree, x: usize) -> (r: bool)
    requires
        tree.wf(),
        x < tree.len(),
    ensures
        r == multiline_code(*tree, x),
{
    let ids = subtree_ids(tree, x);
    let ghost s = subtree(*tree, x);
    let nl: Vec<char> = vec!['\n'];
    let mut j: usize = 1;
    while j < ids.len()
        invariant
            tree.wf(),
            1 <= j,
            x < tree.len(),
            ids_of(ids@) == s,
            s == subtree(*tree, x),
            nl@ == seq!['\n'],
            forall|i: int| 0 <= i < ids@.len() ==> (#[trigger] ids@[i]).value < tree.len(),
            forall|i: int| 1 <= i < j && i < s.len() ==> !#[trigger] has_inner_newline(tree.data(s[i] as int)),
        decreases ids.len() - j,
    {
        let id = ids[j].value;
        proof {
            assert(s[j as int] == id);
        }
        let found = match &tree.nodes[id].data {
            NodeData::Text { contents } => {
                let cv = chars_of(contents.as_str());
                let tv = trim_chars(cv.as_slice());
                let mut hit = false;
                let mut q: usize = 0;
                while q < tv.len()
                    invariant
                        q <= tv.len(),
                        hit == (exists|i: int| 0 <= i < q && tv@[i] == '\n'),
                    decreases tv.len() - q,
                {
                    if tv[q] == '\n' {
                        hit = true;
                    }
                    q = q + 1;
                }
                proof {
                    if hit {
                        let i = choose|i: int| 0 <= i < q && tv@[i] == '\n';
                        assert(tv@.contains('\n'));
                    }
                    if tv@.contains('\n') {
                        let i = choose|i: int| 0 <= i < tv@.len() && tv@[i] == '\n';
                    }
                }
                hit
            },
            _ => false,
        };
        if found {
            proof {
                assert(has_inner_newline(tree.data(s[j as int] as int)));
            }
            return true;
        }
        j = j + 1;
    }
    false
}

/// Whether an element named `table` lies below `x`.
fn has_inner_table_of(tree: &Tree, x: usize) -> (r: bool)
    requires
        tree.wf(),
        x < tree.len(),
    ensures
        r == has_inner_table(*tree, x),
{
    let ids = subtree_ids(tree, x);
    let ghost s = subtree(*tree, x);
    let mut j: usize = 1;
    proof {
        reveal_strlit("table");
    }
    while j < ids.len()
        invariant
            tree.wf(),
            1 <= j,
            x < tree.len(),
            ids_of(ids@) == s,
            s == subtree(*tree, x),
            forall|i: int| 0 <= i < ids@.len() ==> (#[trigger] ids@[i]).value < tree.len(),
            forall|i: int| 1 <= i < j && i < s.len() ==> #[trigger] elem_local(tree.data(s[i] as int)) != Some("table"@),
        decreases ids.len() - j,
    {
        let id = ids[j].value;
        proof {
            assert(s[j as int] == id);
        }
        if named(tree, id, "table") {
            return true;
        }
        j = j + 1;
    }
    false
}

/// Whether table `x` can be written as a Markdown table (see [`table_writable`]).
fn table_writable_of(tree: &Tree, x: usize) -> (r: bool)
    requires
        tree.wf(),
        x < tree.len(),
    ensures
        r == table_writable(*tree, x),
{
    if has_inner_table_of(tree, x) {
        return false;
    }
    let rows = find_named(tree, x, "tr");
    proof {
        reveal_strlit("tr");
        reveal_strlit("th");
        reveal_strlit("td");
    }
    let ghost rs = table_rows(*tree, x);
    let mut common: u128 = 0;
    let mut k: usize = 0;
    while k < rows.len()
        invariant
            tree.wf(),
            k <= rows.len(),
            ids_of(rows@) == rs,
            rs == table_rows(*tree, x),
            forall|i: int| 0 <= i < rows@.len() ==> (#[trigger] rows@[i]).value < tree.len(),
            common_cells(*tree, rs, k as int) == Some(common as int),
        decreases rows.len() - k,
    {
        let r = rows[k].value;
        proof {
            assert(rs[k as int] == r);
        }
        let n: u128 = find_named(tree, r, "th").len() as u128 + find_named(tree, r, "td").len() as u128;
        proof {
            assert(row_cell_count(*tree, rs[k as int]) == n);
        }
        if common == 0 {
            common = n;
        } else if common != n {
            proof {
                assert(common_cells(*tree, rs, k + 1) is None);
                lemma_common_none(*tree, rs, k as int + 1, rs.len() as int);
            }
            return false;
        }
        k = k + 1;
    }
    common != 0
}

proof fn lemma_common_none(t: Tree, rs: Seq<usize>, k: int, n: int)
    requires
        0 <= k <= n,
        common_cells(t, rs, k) is None,
    ensures
        common_cells(t, rs, n) is None,
    decreases n - k,
{
    if k < n {
        lemma_common_none(t, rs, k + 1, n);
    }
}

/// Writes each line of `q` behind `> ` (see [`quoted`]).
fn push_quoted(text: &mut String, q: &str)
    ensures
        final(text)@ == old(text)@ + quoted(q@),
{
    let v = chars_of(q);
    let mut done = String::new();
    let mut cur: Vec<char> = Vec::new();
    let mut i: usize = 0;
    proof {
        assert(v@.take(0) =~= Seq::<char>::empty());
    }
    while i < v.len()
        invariant
            i <= v.len(),
            v@ == q@,
            (done@, cur@) == quote_scan(v@.take(i as int)),
        decreases v.len() - i,
    {
        let c = v[i];
        proof {
            assert(v@.take(i + 1).drop_last() =~= v@.take(i as int));
            assert(v@.take(i + 1).last() == c);
        }
        if c == '\n' {
            push_char(&mut done, '>');
            push_char(&mut done, ' ');
            let n = cur.len();
            let m = if n > 0 && cur[n - 1] == '\r' { n - 1 } else { n };
            let line = take_chars(&cur, 0, m);
            proof {
                assert(line@ =~= strip_cr(cur@));
            }
            push_str(&mut done, line.as_str());
            push_char(&mut done, '\n');
            cur = Vec::new();
            proof {
                assert(cur@ =~= Seq::<char>::empty());
            }
        } else {
            cur.push(c);
        }
        i = i + 1;
    }
    proof {
        assert(v@.take(v.len() as int) =~= v@);
    }
    if cur.len() > 0 {
        push_char(&mut done, '>');
        push_char(&mut done, ' ');
        let line = take_chars(&cur, 0, cur.len());
        proof {
            assert(line@ =~= cur@);
        }
        push_str(&mut done, line.as_str());
        push_char(&mut done, '\n');
    }
    push_str(text, done.as_str());
}

/// Writes a fence of `n + 1` backticks.
fn push_fence(text: &mut String, n: usize)
    ensures
        final(text)@ == old(text)@ + fence(n + 1),
{
    let ghost t0 = text@;
    let mut k: usize = 0;
    while k < n
        invariant
            k <= n,
            text@ == t0 + fence(k as int),
        decreases n - k,
    {
        push_char(text, '`');
        k = k + 1;
        proof {
            assert(text@ =~= t0 + fence(k as int));
        }
    }
    push_char(text, '`');
    proof {
        assert(text@ =~= t0 + fence(n + 1));
    }
}

/// Writes a code span with contents `code` (see [`code_span`]).
fn push_code_span(text: &mut String, code: &str)
    ensures
        final(text)@ == code_span(old(text)@, code@),
{
    let run = max_backtick_run(code);
    proof {
        let c = code@;
        assert(is_longest_run(c, run as int));
        let l = longest_tick_run(c);
        assert(is_longest_run(c, l));
        let wl = choose|i: int| is_tick_run(c, i, l);
        let wr = choose|i: int| is_tick_run(c, i, run as int);
        assert(l <= run);
        assert(run <= l);
    }
    if run == 0 {
        push_char(text, '`');
        push_str(text, code);
        push_char(text, '`');
    } else {
        push_fence(text, run);
        push_char(text, ' ');
        push_str(text, code);
        push_char(text, ' ');
        push_fence(text, run);
    }
}

/// Writes the delimiter cell under heading `h` (see [`dashes`]).
fn push_dashes(text: &mut String, h: &str)
    ensures
        final(text)@ == old(text)@ + dashes(h@),
{
    let v = chars_of(h);
    let ghost t0 = text@;
    if v.len() == 0 {
        push_char(text, '-');
        proof {
            assert(utf8_size(h@) == 0);
            assert(text@ =~= t0 + dashes(h@));
        }
        return;
    }
    let mut i: usize = 0;
    proof {
        assert(v@.take(0) =~= Seq::<char>::empty());
        assert(text@ =~= t0 + Seq::new(utf8_size(v@.take(0)), |j: int| '-'));
    }
    while i < v.len()
        invariant
            i <= v.len(),
            v@ == h@,
            text@ == t0 + Seq::new(utf8_size(v@.take(i as int)), |j: int| '-'),
        decreases v.len() - i,
    {
        let c = v[i];
        let u = c as u32;
        let n: usize = if u < 0x80 { 1 } else if u < 0x800 { 2 } else if u < 0x10000 { 3 } else { 4 };
        let ghost before = text@;
        let mut q: usize = 0;
        while q < n
            invariant
                q <= n,
                text@ == before + Seq::new(q as nat, |j: int| '-'),
            decreases n - q,
        {
            push_char(text, '-');
            q = q + 1;
            proof {
                assert(text@ =~= before + Seq::new(q as nat, |j: int| '-'));
            }
        }
        proof {
            assert(v@.take(i + 1).drop_last() =~= v@.take(i as int));
            assert(v@.take(i + 1).last() == c);
            assert(utf8_len(c) == n);
            assert(text@ =~= t0 + Seq::new(utf8_size(v@.take(i + 1)), |j: int| '-'));
        }
        i = i + 1;
    }
    proof {
        assert(v@.take(v.len() as int) =~= v@);
        lemma_utf8_pos(h@);
        assert(text@ =~= t0 + dashes(h@));
    }
}

proof fn lemma_utf8_pos(s: Seq<char>)
    requires
        s.len() > 0,
    ensures
        utf8_size(s) > 0,
{
}

proof fn lemma_views_push(v: Seq<String>, x: String)
    ensures
        string_views(v.push(x)) == string_views(v).push(x@),
{
    assert(string_views(v.push(x)) =~= string_views(v).push(x@));
}

/// The rows of a table as text.
pub open spec fn rows_view(v: Seq<Vec<String>>) -> Seq<Seq<Seq<char>>> {
    v.map_values(|r: Vec<String>| string_views(r@))
}

/// Writes the Markdown table with rows `rows` (see [`table_written`]).
fn push_table(text: &mut String, rows: &Vec<Vec<String>>, has_header: bool)
    requires
        rows.len() > 0,
    ensures
        final(text)@ == table_written(old(text)@, rows_view(rows@), has_header),
{
    let ghost rv = rows_view(rows@);
    let ghost t0 = text@;
    let mut headings: Vec<String> = Vec::new();
    if has_header {
        let mut j: usize = 0;
        while j < rows[0].len()
            invariant
                j <= rows[0].len(),
                rows.len() > 0,
                string_views(headings@) == string_views(rows@[0]@.take(j as int)),
            decreases rows[0].len() - j,
        {
            let mut h = String::new();
            push_str(&mut h, rows[0][j].as_str());
            let ghost hv0 = headings@;
            headings.push(h);
            proof {
                lemma_views_push(hv0, h);
                lemma_views_push(rows@[0]@.take(j as int), rows@[0]@[j as int]);
                assert(rows@[0]@.take(j + 1) =~= rows@[0]@.take(j as int).push(rows@[0]@[j as int]));
            }
            j = j + 1;
        }
        proof {
            assert(rows@[0]@.take(rows[0].len() as int) =~= rows@[0]@);
        }
    } else {
        let mut j: usize = 0;
        while j < rows[0].len()
            invariant
                j <= rows[0].len(),
                rows.len() > 0,
                string_views(headings@) == blank_cells(j as nat),
            decreases rows[0].len() - j,
        {
            let mut h = String::new();
            push_char(&mut h, ' ');
            let ghost hv0 = headings@;
            headings.push(h);
            proof {
                lemma_views_push(hv0, h);
                assert(h@ =~= seq![' ']);
                assert(blank_cells((j + 1) as nat) =~= blank_cells(j as nat).push(seq![' ']));
            }
            j = j + 1;
        }
    }
    let ghost hv = if has_header { rv[0] } else { blank_cells(rv[0].len()) };
    proof {
        assert(rv[0] == string_views(rows@[0]@));
        assert(string_views(headings@) == hv);
    }
    push_str(text, "\n| ");
    let heading = join_strings(&headings, " | ");
    push_str(text, heading.as_str());
    push_str(text, " |\n");
    push_str(text, "| ");
    let mut dash_cells: Vec<String> = Vec::new();
    let mut j: usize = 0;
    while j < headings.len()
        invariant
            j <= headings.len(),
            string_views(dash_cells@) == string_views(headings@).take(j as int).map_values(|h: Seq<char>| dashes(h)),
        decreases headings.len() - j,
    {
        let mut d = String::new();
        push_dashes(&mut d, headings[j].as_str());
        let ghost dv0 = dash_cells@;
        dash_cells.push(d);
        proof {
            lemma_views_push(dv0, d);
            let hs = string_views(headings@);
            assert(hs[j as int] == headings@[j as int]@);
            assert(hs.take(j + 1).map_values(|h: Seq<char>| dashes(h)) =~= hs.take(j as int).map_values(|h: Seq<char>| dashes(h)).push(dashes(hs[j as int])));
        }
        j = j + 1;
    }
    proof {
        assert(string_views(headings@).take(headings.len() as int) =~= string_views(headings@));
    }
    let dl = join_strings(&dash_cells, " | ");
    push_str(text, dl.as_str());
    push_str(text, " |\n");
    let ghost t1 = text@;
    proof {
        reveal_strlit("\n| ");
        reveal_strlit(" | ");
        reveal_strlit(" |\n");
        reveal_strlit("| ");
        assert(" | "@ =~= seq![' ', '|', ' ']);
        assert(string_views(dash_cells@) == hv.map_values(|h: Seq<char>| dashes(h)));
        assert(t1 =~= t0 + seq!['\n', '|', ' '] + join_with(hv, seq![' ', '|', ' ']) + seq![' ', '|', '\n']
            + seq!['|', ' '] + join_with(hv.map_values(|h: Seq<char>| dashes(h)), seq![' ', '|', ' ']) + seq![' ', '|', '\n']);
    }
    let start: usize = if has_header { 1 } else { 0 };
    let ghost body = if has_header { rv.drop_first() } else { rv };
    let mut k: usize = start;
    proof {
        assert(body =~= rv.skip(start as int));
        assert(rv.skip(start as int).take(0) =~= Seq::<Seq<Seq<char>>>::empty());
    }
    while k < rows.len()
        invariant
            start <= k <= rows.len(),
            rv == rows_view(rows@),
            body == rv.skip(start as int),
            text@ == t1 + table_lines(body.take(k - start)),
        decreases rows.len() - k,
    {
        let ghost before = text@;
        push_str(text, "| ");
        let line = join_strings(&rows[k as usize], " | ");
        push_str(text, line.as_str());
        push_str(text, " |\n");
        proof {
            reveal_strlit(" | ");
            reveal_strlit(" |\n");
            reveal_strlit("| ");
            assert(body.take(k + 1 - start).drop_last() =~= body.take(k - start));
            assert(body.take(k + 1 - start).last() == rv[k as int]);
            assert(rv[k as int] == string_views(rows@[k as int]@));
            assert(" | "@ =~= seq![' ', '|', ' ']);
            assert(" |\n"@ =~= seq![' ', '|', '\n']);
            assert("| "@ =~= seq!['|', ' ']);
            let bt = body.take(k + 1 - start);
            assert(table_lines(bt) == table_lines(bt.drop_last()) + seq!['|', ' '] + join_with(bt.last(), seq![' ', '|', ' ']) + seq![' ', '|', '\n']);
            assert(text@ =~= before + seq!['|', ' '] + join_with(rv[k as int], seq![' ', '|', ' ']) + seq![' ', '|', '\n']);
        }
        k = k + 1;
    }
    proof {
        assert(body.take(rows.len() - start) =~= body);
    }
    push_char(text, '\n');
    proof {
        reveal_strlit("\n| ");
        reveal_strlit(" | ");
        reveal_strlit(" |\n");
        reveal_strlit("| ");
        assert(text@ =~= table_written(t0, rv, has_header));
    }
}

// ---------------------------------------------------------------------------
// The walk
// ---------------------------------------------------------------------------

proof fn lemma_delims_push(v: Seq<(usize, &'static str)>, x: (usize, &'static str))
    ensures
        delim_views(v.push(x)) == delim_views(v).push((x.0 as int, x.1@)),
{
    assert(delim_views(v.push(x)) =~= delim_views(v).push((x.0 as int, x.1@)));
}

proof fn lemma_delims_pop(v: Seq<(usize, &'static str)>)
    requires
        v.len() > 0,
    ensures
        delim_views(v.subrange(0, v.len() - 1)) == delim_views(v).drop_last(),
        delim_views(v).last() == (v.last().0 as int, v.last().1@),
{
    assert(delim_views(v.subrange(0, v.len() - 1)) =~= delim_views(v).drop_last());
}

/// Whether an element with local name `l` has a writer of its own.
fn is_special(l: &str) -> (r: bool)
    ensures
        r == special_name(l@),
{
    str_eq(l, "ul") || str_eq(l, "ol") || str_eq(l, "a") || str_eq(l, "img") || str_eq(l, "pre") || str_eq(l, "blockquote")
        || str_eq(l, "table") || str_eq(l, "code")
}

/// The line break and the blank line of the options.
fn breaks(br: bool) -> (r: (&'static str, String))
    ensures
        r.0@ == lb_of(br),
        r.1@ == lb_of(br) + lb_of(br),
{
    let lb = linebreak(br);
    let mut dbl = String::new();
    push_str(&mut dbl, lb);
    push_str(&mut dbl, lb);
    (lb, dbl)
}

/// Writes the break of a block (see [`block_break`]).
fn break_block(text: &mut String, o: FormatOpts)
    ensures
        final(text)@ == block_break(old(text)@, o),
{
    let (lb, dbl) = breaks(o.br);
    if o.br && o.ignore_linebreak {
        add_cell_block_break(text, lb);
    } else if !o.ignore_linebreak {
        add_linebreaks(text, lb, dbl.as_str());
    }
}

/// Writes what comes before element `e` (see [`md_opened`]).
fn open_element(text: &mut String, delims: &mut Vec<(usize, &'static str)>, e: &Element, o: FormatOpts)
    ensures
        (final(text)@, delim_views(final(delims)@)) == md_opened((old(text)@, delim_views(old(delims)@)), e.name.local@, o),
{
    if is_md_block(&e.name) {
        break_block(text, o);
    }
    match md_prefix(&e.name) {
        Some(p) => {
            if is_emphasis_delim(&e.name) {
                proof {
                    if delims@.len() > 0 {
                        lemma_delims_pop(delims@);
                    }
                }
                let d = choose_emphasis_delimiter(text, p, delims);
                let pos = chars_of(text.as_str()).len();
                let ghost v0 = delims@;
                delims.push((pos, d));
                proof {
                    lemma_delims_push(v0, (pos, d));
                }
                push_str(text, d);
            } else {
                push_str(text, p);
            }
        },
        None => {},
    }
}

/// Writes what comes after element `name` (see [`md_closed`]).
fn close_element(text: &mut String, delims: &mut Vec<(usize, &'static str)>, name: &crate::node::QualName, o: FormatOpts)
    ensures
        (final(text)@, delim_views(final(delims)@)) == md_closed((old(text)@, delim_views(old(delims)@)), name.local@, o),
{
    let ghost v0 = delims@;
    match md_suffix(name) {
        Some(sfx) => {
            proof {
                if v0.len() > 0 {
                    lemma_delims_pop(v0);
                }
            }
            match delims.pop() {
                Some((start, d)) => {
                    push_delimiter(text, start, d);
                },
                None => {
                    push_str(text, sfx);
                },
            }
        },
        None => {},
    }
    let (lb, dbl) = breaks(o.br);
    let tv = chars_of(text.as_str());
    let dv = chars_of(dbl.as_str());
    if chars_ends_with(tv.as_slice(), dv.as_slice()) {
        return;
    }
    if is_md_block(name) {
        break_block(text, o);
    } else if str_eq(name.local.as_str(), "br") || str_eq(name.local.as_str(), "li") || str_eq(name.local.as_str(), "tr") {
        trim_right_space(text);
        push_str(text, "  ");
        push_str(text, lb);
        proof {
            reveal_strlit("  ");
            assert("  "@ =~= seq![' ', ' ']);
        }
    }
}

/// Writes node `x` (see [`md_open`]).
fn write_node(tree: &Tree, skip: &Vec<String>, text: &mut String, delims: &mut Vec<(usize, &'static str)>, x: usize, o: FormatOpts, f: u128)
    requires
        tree.wf(),
        x < tree.len(),
    ensures
        (final(text)@, delim_views(final(delims)@)) == md_open(*tree, (old(text)@, delim_views(old(delims)@)), x, o, string_views(skip@), f as nat),
    decreases f,
{
    if f == 0 {
        return;
    }
    let ghost sk = string_views(skip@);
    let ghost st0: MdState = (text@, delim_views(delims@));
    match &tree.nodes[x].data {
        NodeData::Text { contents } => {
            push_normalized_text(text, contents.as_str(), !o.skip_escape);
        },
        NodeData::Element(e) => {
            if names_contain(skip, e.name.local.as_str()) {
                return;
            }
            open_element(text, delims, e, o);
            if is_special(e.name.local.as_str()) {
                write_special(tree, skip, text, x, e, o, f - 1);
                return;
            }
            let ghost st1: MdState = (text@, delim_views(delims@));
            let cs = child_ids(tree, x);
            let ghost ch = tree.children(x as int);
            proof {
                crate::normalize::lemma_kids(*tree, x as int);
            }
            let mut k: usize = 0;
            while k < cs.len()
                invariant
                    tree.wf(),
                    f > 0,
                    k <= cs.len(),
                    ids_of(cs@) == ch,
                    forall|i: int| 0 <= i < ch.len() ==> #[trigger] ch[i] < tree.len(),
                    sk == string_views(skip@),
                    (text@, delim_views(delims@)) == md_seq(*tree, st1, ch, k as int, o, sk, (f - 1) as nat),
                decreases cs.len() - k,
            {
                let c = cs[k].value;
                proof {
                    assert(ch[k as int] == c);
                }
                write_node(tree, skip, text, delims, c, o, f - 1);
                k = k + 1;
            }
            close_element(text, delims, &e.name, o);
        },
        _ => {},
    }
}

/// Writes node `x`, or its children (see [`md_write`]).
fn write_md(tree: &Tree, skip: &Vec<String>, text: &mut String, x: usize, o: FormatOpts, f: u128)
    requires
        tree.wf(),
        x < tree.len(),
    ensures
        final(text)@ == md_write(*tree, old(text)@, x, o, string_views(skip@), f as nat),
    decreases f,
{
    if f == 0 {
        return;
    }
    let ghost sk = string_views(skip@);
    let owns = chars_of(text.as_str()).len() == 0;
    let mut delims: Vec<(usize, &'static str)> = Vec::new();
    let ghost st0: MdState = (text@, Seq::empty());
    proof {
        assert(delim_views(delims@) =~= Seq::<(int, Seq<char>)>::empty());
    }
    if o.include_node {
        write_node(tree, skip, text, &mut delims, x, o, f - 1);
        return;
    }
    let cs = child_ids(tree, x);
    let ghost ch = tree.children(x as int);
    proof {
        crate::normalize::lemma_kids(*tree, x as int);
    }
    let mut k: usize = 0;
    while k < cs.len()
        invariant
            tree.wf(),
            f > 0,
            k <= cs.len(),
            ids_of(cs@) == ch,
            forall|i: int| 0 <= i < ch.len() ==> #[trigger] ch[i] < tree.len(),
            sk == string_views(skip@),
            (text@, delim_views(delims@)) == md_seq(*tree, st0, ch, k as int, o, sk, (f - 1) as nat),
        decreases cs.len() - k,
    {
        let c = cs[k].value;
        proof {
            assert(ch[k as int] == c);
        }
        write_node(tree, skip, text, &mut delims, c, o, f - 1);
        k = k + 1;
    }
    trim_end_whitespace(text);
    if owns {
        trim_start_whitespace(text);
    }
}

/// Writes element `x` (data `e`) by its own writer (see [`md_special`]).
#[verifier::rlimit(80)]
#[verifier::spinoff_prover]
fn write_special(tree: &Tree, skip: &Vec<String>, text: &mut String, x: usize, e: &Element, o: FormatOpts, f: u128)
    requires
        tree.wf(),
        x < tree.len(),
        tree.data(x as int) == NodeData::Element(*e),
    ensures
        final(text)@ == md_special(*tree, old(text)@, x, *e, o, string_views(skip@), f as nat),
    decreases f,
{
    if f == 0 {
        return;
    }
    let l = e.name.local.as_str();
    proof {
        reveal_strlit("+ ");
        reveal_strlit("- ");
        reveal_strlit("1. ");
        reveal_strlit("ul");
        reveal_strlit("ol");
        reveal_strlit("a");
        reveal_strlit("img");
        reveal_strlit("pre");
        reveal_strlit("blockquote");
        reveal_strlit("table");
        reveal_strlit("start");
        assert("+ "@ =~= seq!['+', ' ']);
        assert("- "@ =~= seq!['-', ' ']);
        assert("1. "@ =~= seq!['1', '.', ' ']);
    }
    if str_eq(l, "ul") {
        let prefix = if o.br { "+ " } else { "- " };
        write_list(tree, skip, text, x, prefix, o, None, f - 1);
    } else if str_eq(l, "ol") {
        let start = match list_number_of(e.attr("start")) {
            Some(n) => n,
            None => 1,
        };
        write_list(tree, skip, text, x, "1. ", o, Some(start), f - 1);
    } else if str_eq(l, "a") {
        write_link(tree, skip, text, x, e, f - 1);
    } else if str_eq(l, "img") {
        write_img(text, &tree.nodes[x]);
    } else if str_eq(l, "pre") {
        write_pre(tree, x, text);
    } else if str_eq(l, "blockquote") {
        write_blockquote(tree, skip, text, x, f - 1);
    } else if str_eq(l, "table") {
        write_table(tree, skip, text, x, f - 1);
    } else {
        write_code(tree, skip, text, x, f - 1);
    }
}

/// `n` spaces.
fn spaces_string(n: usize) -> (r: String)
    ensures
        r@ == spaces(n as nat),
{
    let mut out = String::new();
    let mut k: usize = 0;
    while k < n
        invariant
            k <= n,
            out@ == spaces(k as nat),
        decreases n - k,
    {
        push_char(&mut out, ' ');
        k = k + 1;
        proof {
            assert(out@ =~= spaces(k as nat));
        }
    }
    out
}

/// The indent of a list at `offset`: four spaces a level.
fn list_indent(offset: usize) -> (r: String)
    ensures
        r@ == spaces((offset * 4) as nat),
{
    let mut out = String::new();
    let mut k: usize = 0;
    while k < offset
        invariant
            k <= offset,
            out@ == spaces((k * 4) as nat),
        decreases offset - k,
    {
        push_str(&mut out, "    ");
        k = k + 1;
        proof {
            reveal_strlit("    ");
            assert(out@ =~= spaces((k * 4) as nat));
        }
    }
    out
}

/// Writes list `x` (see [`md_list`]).
#[verifier::rlimit(100)]
#[verifier::spinoff_prover]
fn write_list(tree: &Tree, skip: &Vec<String>, text: &mut String, x: usize, prefix: &str, o: FormatOpts, next: Option<u64>, f: u128)
    requires
        tree.wf(),
        x < tree.len(),
    ensures
        final(text)@ == md_list(*tree, old(text)@, x, prefix@, o, next, string_views(skip@), f as nat),
    decreases f,
{
    if f <= 1 {
        return;
    }
    let g = f - 1;
    let ghost sk = string_views(skip@);
    let inner = FormatOpts { offset: if o.offset < usize::MAX { o.offset + 1 } else { o.offset }, ..o };
    let (lb, _dbl) = breaks(o.br);
    let indent = list_indent(o.offset);
    let cs = child_ids(tree, x);
    let ghost ch = tree.children(x as int);
    proof {
        crate::normalize::lemma_kids(*tree, x as int);
        reveal_strlit("li");
        reveal_strlit("value");
        reveal_strlit(". ");
    }
    let ghost st0 = (text@, prefix@, next);
    let mut cur = String::new();
    push_str(&mut cur, prefix);
    let mut num = next;
    let mut k: usize = 0;
    while k < cs.len()
        invariant
            tree.wf(),
            g >= 1,
            g == f - 1,
            k <= cs.len(),
            ids_of(cs@) == ch,
            forall|i: int| 0 <= i < ch.len() ==> #[trigger] ch[i] < tree.len(),
            sk == string_views(skip@),
            lb@ == lb_of(o.br),
            indent@ == spaces((o.offset * 4) as nat),
            (text@, cur@, num) == md_items(*tree, st0, ch, k as int, inner, lb@, indent@, sk, g as nat),
        decreases cs.len() - k,
    {
        let c = cs[k].value;
        proof {
            assert(ch[k as int] == c);
        }
        write_list_child(tree, skip, text, &mut cur, &mut num, c, inner, lb, indent.as_str(), g);
        k = k + 1;
    }
}

/// Writes child `c` of a list (see [`md_item_step`]).
#[verifier::rlimit(60)]
#[verifier::spinoff_prover]
fn write_list_child(tree: &Tree, skip: &Vec<String>, text: &mut String, cur: &mut String, num: &mut Option<u64>, c: usize,
    inner: FormatOpts, lb: &str, indent: &str, f: u128)
    requires
        tree.wf(),
        c < tree.len(),
    ensures
        (final(text)@, final(cur)@, *final(num)) == md_item_step(*tree, (old(text)@, old(cur)@, *old(num)), c, inner, lb@, indent@,
            string_views(skip@), f as nat),
    decreases f,
{
    if f == 0 {
        return;
    }
    proof {
        reveal_strlit(". ");
        reveal_strlit("li");
        reveal_strlit("value");
        assert(". "@ =~= seq!['.', ' ']);
    }
    let is_li = named(tree, c, "li");
    if is_li && num.is_some() {
        if let NodeData::Element(ce) = &tree.nodes[c].data {
            match list_number_of(ce.attr("value")) {
                Some(v) => {
                    *num = Some(v);
                },
                None => {},
            }
        }
    }
    if is_li {
        if let Some(n) = *num {
            let mut p = decimal_string(n);
            push_str(&mut p, ". ");
            *cur = p;
            *num = Some(if n < MAX_LIST_NUMBER { n + 1 } else { MAX_LIST_NUMBER });
        }
        trim_right_space(text);
        push_str(text, indent);
        push_str(text, cur.as_str());
        if has_block_child_of(tree, c) {
            let pl = chars_of(cur.as_str()).len();
            let mut bindent = String::new();
            push_str(&mut bindent, indent);
            let sp = spaces_string(pl);
            push_str(&mut bindent, sp.as_str());
            write_item_blocks(tree, skip, text, c, inner, lb, bindent.as_str(), f - 1);
        } else {
            write_md(tree, skip, text, c, inner, f - 1);
            push_str(text, lb);
        }
    } else {
        write_md(tree, skip, text, c, FormatOpts::new().include_node(), f - 1);
    }
}

/// Writes the children of a list item that holds blocks (see [`md_item_blocks`]).
fn write_item_blocks(tree: &Tree, skip: &Vec<String>, text: &mut String, c: usize, inner: FormatOpts, lb: &str, bindent: &str, f: u128)
    requires
        tree.wf(),
        c < tree.len(),
    ensures
        final(text)@ == md_item_blocks(*tree, (old(text)@, true, false), tree.children(c as int), tree.children(c as int).len() as int,
            inner, lb@, bindent@, string_views(skip@), f as nat).0,
    decreases f,
{
    if f == 0 {
        return;
    }
    let ghost sk = string_views(skip@);
    let cs = child_ids(tree, c);
    let ghost ch = tree.children(c as int);
    proof {
        crate::normalize::lemma_kids(*tree, c as int);
    }
    let ghost st0 = (text@, true, false);
    let mut first = true;
    let mut seen = false;
    let mut k: usize = 0;
    while k < cs.len()
        invariant
            tree.wf(),
            f >= 1,
            k <= cs.len(),
            ids_of(cs@) == ch,
            forall|i: int| 0 <= i < ch.len() ==> #[trigger] ch[i] < tree.len(),
            sk == string_views(skip@),
            (text@, first, seen) == md_item_blocks(*tree, st0, ch, k as int, inner, lb@, bindent@, sk, f as nat),
        decreases cs.len() - k,
    {
        let g = cs[k].value;
        proof {
            assert(ch[k as int] == g);
        }
        if block_not_list_of(tree, g) {
            if first {
                first = false;
                if seen {
                    trim_right_space(text);
                    push_str(text, lb);
                    push_str(text, bindent);
                }
            } else {
                push_str(text, bindent);
            }
            write_md(tree, skip, text, g, inner, f - 1);
            push_str(text, lb);
            push_str(text, lb);
        } else {
            if !is_list_node_of(tree, g) && !invisible_text_of(tree, g) {
                seen = true;
            }
            write_md(tree, skip, text, g, inner.include_node(), f - 1);
        }
        k = k + 1;
    }
}

/// Writes link `x` (data `e`) (see [`md_link`]).
#[verifier::rlimit(80)]
#[verifier::spinoff_prover]
fn write_link(tree: &Tree, skip: &Vec<String>, text: &mut String, x: usize, e: &Element, f: u128)
    requires
        tree.wf(),
        x < tree.len(),
        tree.data(x as int) == NodeData::Element(*e),
    ensures
        final(text)@ == md_link(*tree, old(text)@, x, *e, string_views(skip@), f as nat),
    decreases f,
{
    if f == 0 {
        return;
    }
    match e.attr("href") {
        Some(href) => {
            let ghost s0 = text@;
            let has_img = has_descendant_img(tree, &NodeId::new(x));
            let mut plain = String::new();
            write_text(tree, &mut plain, x, false, tree.nodes.len());
            let body_is_md = has_img || chars_of(plain.as_str()).len() == 0;
            let opts = FormatOpts::new();
            let body = if body_is_md {
                let mut b = String::new();
                write_md(tree, skip, &mut b, x, opts, f - 1);
                b
            } else {
                plain
            };
            proof {
                assert(opts == plain_opts());
                assert(has_img == exists|j: int| 1 <= j < subtree(*tree, x).len() && #[trigger] is_img(tree.data(subtree(*tree, x)[j] as int)));
                assert(plain@ == md_text_node(*tree, Seq::empty(), x, false, tree.len()));
            }
            if chars_of(body.as_str()).len() > 0 {
                escape_trailing_bang(text);
                push_char(text, '[');
                let ghost s1 = text@;
                proof {
                    assert(s1 =~= bang_escaped(s0) + seq!['[']);
                }
                if body_is_md {
                    push_str(text, body.as_str());
                } else {
                    push_normalized_text(text, body.as_str(), true);
                }
                let ghost s2 = text@;
                push_char(text, ']');
                push_char(text, '(');
                let dest = md_link_destination(href.as_str());
                push_str(text, dest.as_str());
                proof {
                    assert(text@ =~= s2 + seq![']', '('] + link_destination(href@));
                }
                match e.attr("title") {
                    Some(title) => {
                        push_str(text, " \"");
                        push_normalized_text(text, title.as_str(), true);
                        push_str(text, "\"");
                    },
                    None => {},
                }
                let ghost s3 = text@;
                push_char(text, ')');
                proof {
                    assert(text@ =~= s3 + seq![')']);
                }
            }
            proof {
                assert(text@ == link_written(s0, *e, href@, body@, body_is_md));
            }
        },
        None => {
            write_md(tree, skip, text, x, FormatOpts::new(), f - 1);
        },
    }
}

/// Writes code element `x` (see [`md_code`]).
fn write_code(tree: &Tree, skip: &Vec<String>, text: &mut String, x: usize, f: u128)
    requires
        tree.wf(),
        x < tree.len(),
    ensures
        final(text)@ == md_code(*tree, old(text)@, x, string_views(skip@), f as nat),
    decreases f,
{
    if f == 0 {
        return;
    }
    if multiline_code_of(tree, x) {
        write_pre(tree, x, text);
        return;
    }
    let mut code = String::new();
    write_md(tree, skip, &mut code, x, FormatOpts::new().skip_escape(), f - 1);
    push_code_span(text, code.as_str());
}

/// Writes quote `x` (see [`md_blockquote`]).
fn write_blockquote(tree: &Tree, skip: &Vec<String>, text: &mut String, x: usize, f: u128)
    requires
        tree.wf(),
        x < tree.len(),
    ensures
        final(text)@ == md_blockquote(*tree, old(text)@, x, string_views(skip@), f as nat),
    decreases f,
{
    if f == 0 {
        return;
    }
    let ghost s0 = text@;
    let opts = FormatOpts::new();
    let mut q = String::new();
    write_md(tree, skip, &mut q, x, opts, f - 1);
    proof {
        assert(opts == plain_opts());
        assert(q@ == md_write(*tree, Seq::empty(), x, plain_opts(), string_views(skip@), (f - 1) as nat));
    }
    if chars_of(q.as_str()).len() == 0 {
        return;
    }
    let nn: Vec<char> = vec!['\n', '\n'];
    proof {
        assert(nn@ =~= seq!['\n', '\n']);
    }
    let tv = chars_of(text.as_str());
    if !chars_ends_with(tv.as_slice(), nn.as_slice()) {
        push_char(text, '\n');
        proof {
            assert(text@ =~= s0 + seq!['\n']);
        }
        let tv2 = chars_of(text.as_str());
        if !chars_ends_with(tv2.as_slice(), nn.as_slice()) {
            push_char(text, '\n');
            proof {
                assert(text@ =~= s0 + seq!['\n'] + seq!['\n']);
            }
        }
    }
    proof {
        assert(text@ == with_linebreaks(s0, seq!['\n'], seq!['\n', '\n']));
    }
    push_quoted(text, q.as_str());
    push_char(text, '\n');
}

/// Writes table `x` (see [`md_table`]).
fn write_table(tree: &Tree, skip: &Vec<String>, text: &mut String, x: usize, f: u128)
    requires
        tree.wf(),
        x < tree.len(),
    ensures
        final(text)@ == md_table(*tree, old(text)@, x, string_views(skip@), f as nat),
    decreases f,
{
    if f == 0 {
        return;
    }
    if !table_writable_of(tree, x) {
        write_md(tree, skip, text, x, FormatOpts::new(), f - 1);
        return;
    }
    let g = f - 1;
    let ghost sk = string_views(skip@);
    let mut rows: Vec<Vec<String>> = Vec::new();
    let mut has_header = false;
    if g > 0 {
        let rs = find_named(tree, x, "tr");
        proof {
            reveal_strlit("tr");
        }
        let ghost rids = table_rows(*tree, x);
        let ghost st0 = (Seq::<Seq<Seq<char>>>::empty(), false);
        proof {
            assert(rows_view(rows@) =~= Seq::<Seq<Seq<char>>>::empty());
        }
        let mut k: usize = 0;
        while k < rs.len()
            invariant
                tree.wf(),
                g > 0,
                g == f - 1,
                k <= rs.len(),
                ids_of(rs@) == rids,
                forall|i: int| 0 <= i < rs@.len() ==> (#[trigger] rs@[i]).value < tree.len(),
                sk == string_views(skip@),
                (rows_view(rows@), has_header) == md_rows(*tree, st0, rids, k as int, sk, g as nat),
            decreases rs.len() - k,
        {
            let r = rs[k].value;
            proof {
                assert(rids[k as int] == r);
            }
            let (row, all_th) = write_cells(tree, skip, r, g - 1);
            if row.len() > 0 {
                if rows.len() == 0 {
                    has_header = all_th;
                }
                let ghost rv0 = rows@;
                rows.push(row);
                proof {
                    assert(rows_view(rows@) =~= rows_view(rv0).push(string_views(row@)));
                }
            }
            k = k + 1;
        }
        proof {
            assert(rids == table_rows(*tree, x));
        }
    }
    if rows.len() == 0 {
        write_md(tree, skip, text, x, FormatOpts::new(), f - 1);
        return;
    }
    push_table(text, &rows, has_header);
}

/// The cells of row `r` (see [`md_cells`]).
fn write_cells(tree: &Tree, skip: &Vec<String>, r: usize, f: u128) -> (out: (Vec<String>, bool))
    requires
        tree.wf(),
        r < tree.len(),
    ensures
        (string_views(out.0@), out.1) == md_cells(*tree, (Seq::empty(), true), tree.children(r as int), tree.children(r as int).len() as int,
            string_views(skip@), f as nat),
    decreases f,
{
    let mut row: Vec<String> = Vec::new();
    let mut all_th = true;
    proof {
        assert(string_views(row@) =~= Seq::<Seq<char>>::empty());
    }
    if f == 0 {
        return (row, all_th);
    }
    let ghost sk = string_views(skip@);
    let cs = child_ids(tree, r);
    let ghost ch = tree.children(r as int);
    proof {
        crate::normalize::lemma_kids(*tree, r as int);
        reveal_strlit("th");
        reveal_strlit("td");
    }
    let ghost st0 = (Seq::<Seq<char>>::empty(), true);
    let mut k: usize = 0;
    while k < cs.len()
        invariant
            tree.wf(),
            f >= 1,
            k <= cs.len(),
            ids_of(cs@) == ch,
            forall|i: int| 0 <= i < ch.len() ==> #[trigger] ch[i] < tree.len(),
            sk == string_views(skip@),
            (string_views(row@), all_th) == md_cells(*tree, st0, ch, k as int, sk, f as nat),
        decreases cs.len() - k,
    {
        let c = cs[k].value;
        proof {
            assert(ch[k as int] == c);
        }
        let th = named(tree, c, "th");
        if th || named(tree, c, "td") {
            let mut w = String::new();
            write_md(tree, skip, &mut w, c, FormatOpts::new().ignore_linebreak().br(), f - 1);
            trim_trailing_cell_break(&mut w);
            let ghost rv0 = row@;
            row.push(w);
            proof {
                lemma_views_push(rv0, w);
            }
            all_th = all_th && th;
        }
        k = k + 1;
    }
    (row, all_th)
}

// ---------------------------------------------------------------------------
// The serializer
// ---------------------------------------------------------------------------

/// The tags to leave out: those given, or by default `script`, `style`, `meta` and `head`.
pub open spec fn skip_names(skip_tags: Option<&[&str]>) -> Seq<Seq<char>> {
    match skip_tags {
        Some(v) => str_views(v@),
        None => default_skip(),
    }
}

/// Serializes a node and what lies below it as Markdown.
pub struct MDSerializer<'a> {
    pub root_node: &'a NodeRef<'a>,
    pub skip_tags: Vec<String>,
}

impl<'a> MDSerializer<'a> {
    /// A serializer of `root_node` that leaves out the elements named in `skip_tags`
    /// and what lies below them; `None` leaves out `script`, `style`, `meta` and `head`.
    pub fn new(root_node: &'a NodeRef<'a>, skip_tags: Option<&[&str]>) -> (r: Self)
        ensures
            r.root_node == root_node,
            string_views(r.skip_tags@) == skip_names(skip_tags),
    {
        let mut names: Vec<String> = Vec::new();
        match skip_tags {
            Some(v) => {
                let mut i: usize = 0;
                while i < v.len()
                    invariant
                        i <= v.len(),
                        string_views(names@) == str_views(v@).take(i as int),
                    decreases v.len() - i,
                {
                    let mut n = String::new();
                    push_str(&mut n, v[i]);
                    let ghost nv0 = names@;
                    names.push(n);
                    proof {
                        lemma_views_push(nv0, n);
                        assert(str_views(v@).take(i + 1) =~= str_views(v@).take(i as int).push(v@[i as int]@));
                    }
                    i = i + 1;
                }
                proof {
                    assert(str_views(v@).take(v.len() as int) =~= str_views(v@));
                }
            },
            None => {
                let mut a = String::new();
                push_str(&mut a, "script");
                let mut b = String::new();
                push_str(&mut b, "style");
                let mut c = String::new();
                push_str(&mut c, "meta");
                let mut d = String::new();
                push_str(&mut d, "head");
                names.push(a);
                names.push(b);
                names.push(c);
                names.push(d);
                proof {
                    assert(string_views(names@) =~= default_skip());
                }
            },
        }
        MDSerializer { root_node, skip_tags: names }
    }

    /// The Markdown of the node (see [`markdown`]); with `include_node` the node itself
    /// is written too, else only its children, and the result is trimmed of whitespace.
    /// A node outside its tree gives nothing.
    pub fn serialize(&self, include_node: bool) -> (r: String)
        requires
            self.root_node.tree.wf(),
            include_node ==> self.root_node.tree.valid(self.root_node.id.value as int),
        ensures
            self.root_node.tree.valid(self.root_node.id.value as int) ==> r@ == markdown(*self.root_node.tree,
                self.root_node.id.value, include_node, string_views(self.skip_tags@)),
            !self.root_node.tree.valid(self.root_node.id.value as int) ==> r@ == Seq::<char>::empty(),
    {
        let tree = self.root_node.tree;
        let mut text = String::new();
        let x = self.root_node.id.value;
        if x >= tree.nodes.len() {
            return text;
        }
        let fuel: u128 = tree.nodes.len() as u128 * 8 + 8;
        let opts = FormatOpts { include_node, ..FormatOpts::new() };
        write_md(tree, &self.skip_tags, &mut text, x, opts, fuel);
        proof {
            assert(opts == FormatOpts { include_node: include_node, ..plain_opts() });
            assert(fuel as nat == md_fuel(*tree));
        }
        text
    }
}

/// The Markdown of `root_node` (see [`MDSerializer::serialize`]).
pub fn serialize_md(root_node: &NodeRef, include_node: bool, skip_tags: Option<&[&str]>) -> (r: String)
    requires
        root_node.tree.wf(),
        include_node ==> root_node.tree.valid(root_node.id.value as int),
    ensures
        root_node.tree.valid(root_node.id.value as int) ==> r@ == markdown(*root_node.tree, root_node.id.value, include_node,
            skip_names(skip_tags)),
        !root_node.tree.valid(root_node.id.value as int) ==> r@ == Seq::<char>::empty(),
{
    MDSerializer::new(root_node, skip_tags).serialize(include_node)
}

impl<'a> NodeRef<'a> {
    /// The Markdown of the node's children, leaving out the elements named in
    /// `skip_tags` (by default `script`, `style`, `meta` and `head`) and what lies below them.
    pub fn md(&self, skip_tags: Option<&[&str]>) -> (r: String)
        requires
            self.tree.wf(),
        ensures
            self.tree.valid(self.id.value as int) ==> r@ == markdown(*self.tree, self.id.value, false, skip_names(skip_tags)),
            !self.tree.valid(self.id.value as int) ==> r@ == Seq::<char>::empty(),
    {
        serialize_md(self, false, skip_tags)
    }
}

impl Document {
    /// The Markdown of the document, leaving out the elements named in `skip_tags`
    /// (by default `script`, `style`, `meta` and `head`) and what lies below them.
    pub fn md(&self, skip_tags: Option<&[&str]>) -> (r: String)
        requires
            self.tree.wf(),
        ensures
            self.tree.valid(0) ==> r@ == markdown(self.tree, 0, false, skip_names(skip_tags)),
            !self.tree.valid(0) ==> r@ == Seq::<char>::empty(),
    {
        let root = NodeRef::new(NodeId::new(0), &self.tree);
        root.md(skip_tags)
    }
}

} // verus!
