//! What holds across the library's functions.
use vstd::prelude::*;
use crate::node::{NodeData, Element, NodeId};
use crate::tree::{Tree, node_ok};
use crate::text::{contains_seq, occurs_at, has_word, is_word_at, is_ws, ends_with, starts_with, is_ascii_ws};
use crate::subtree::{texts, text_contents, subtree, lemma_texts_append, norm_total, norm_fold, norm_count, ends_ws,
    preorder, forest};
use crate::noderef::{text_node_has, pseudo_matches};
use crate::minisel::{SelModel, Combinator, AttrOperator};
use crate::minimatch::{list_walk, seek, node_matches, Seek, attr_matches, elem_has_class};
use crate::ops::{detached, moved, children_without, siblings_without, index_without};
use crate::pseudo::{NonTSPseudoClass, pseudo_class_named, pseudo_css, eq_ignore_case};
use crate::serial::{SerializeStep, TraversalScope, serialized, ser_forest, ser_node};
use crate::element::{add_words, join_words, class_words, space_pieces, trims, trim, nonempty, dedup, lead_ws, trail_ws,
    lit_class, attr_value};
use crate::text_format::{fmt_node, fmt_forest, adjusted, requires_linebreak, two_newlines};
use crate::mdspec::{emph_name, md_special, md_link, md_text_node, link_written, MdState, md_opened, md_closed, block_break, lb_of};
use crate::mdwrite::{md_prefix_of, md_suffix_of, md_block_name, bang_escaped, with_title, is_img, img_src, img_written, img_alt_part};
use crate::md::{FormatOpts, normalized_text, link_destination, trim_right_spaces};

verus! {

/// A list of one selector matches a node exactly when the selector does.
pub proof fn law_single_selector_list(t: Tree, m: SelModel, x: usize)
    requires
        t.wf(),
        t.valid(x as int),
    ensures
        list_walk(t, seq![m], 1, x, Some(x), true) == node_matches(m, t.node(x as int)),
{
    let ms = seq![m];
    assert(ms[0] == m);
    if node_matches(m, t.node(x as int)) {
        assert(seek(t, m, x, Some(x), true) == crate::minimatch::Seek::Go(t.parent(x as int), true));
        assert(list_walk(t, ms, 0, x, t.parent(x as int), true));
        assert(list_walk(t, ms, 1, x, Some(x), true) == list_walk(t, ms, 0, x, t.parent(x as int), true));
    } else {
        assert(seek(t, m, x, Some(x), true) == crate::minimatch::Seek::Stop);
    }
}

/// A node whose subtree holds a text node containing `needle` has `needle` in its text:
/// what `has_text` finds, `text` contains (so `:has-text(s)` implies `:contains(s)`).
pub proof fn law_has_text_in_text(t: Tree, x: usize, needle: Seq<char>)
    requires
        exists|j: int| 0 <= j < subtree(t, x).len() && #[trigger] text_node_has(t, subtree(t, x)[j], needle),
    ensures
        contains_seq(texts(t, subtree(t, x)), needle),
{
    let sub = subtree(t, x);
    let j = choose|j: int| 0 <= j < sub.len() && #[trigger] text_node_has(t, sub[j], needle);
    let c = text_contents(t.data(sub[j] as int));
    let k = choose|k: int| occurs_at(c, needle, k);
    let a = sub.take(j);
    let b = sub.skip(j + 1);
    lemma_texts_append(t, a.push(sub[j]), b);
    assert(a.push(sub[j]) + b =~= sub);
    assert(a.push(sub[j]).drop_last() =~= a);
    let whole = texts(t, sub);
    let pre = texts(t, a);
    assert(whole == pre + c + texts(t, b));
    let i = pre.len() + k;
    assert(whole.subrange(i, i + needle.len()) =~= c.subrange(k, k + needle.len()));
    assert(occurs_at(whole, needle, i));
}

/// A node taken from its parent and appended to `p` ends up last among the children
/// of `p`, after the children it had once the node left.
pub proof fn law_remove_then_append(t0: Tree, t1: Tree, t2: Tree, x: int, p: int)
    requires
        t0.wf(),
        0 <= x < t0.len(),
        0 <= p < t0.len(),
        detached(t0, t1, x),
        moved(t1, t2, x, Some(p as usize), children_without(t1, x, p), children_without(t1, x, p).len() as int),
    ensures
        t2.children(p) == children_without(t0, x, p).push(x as usize),
        t2.parent(x) == Some(p as usize),
{
    assert(t1.parent(x).is_none());
    assert(children_without(t1, x, p) == t1.children(p));
    assert(t1.children(p) == children_without(t0, x, p));
    let s = children_without(t1, x, p);
    assert(s.insert(s.len() as int, x as usize) =~= s.push(x as usize));
}

/// Writing a pseudo-class without argument and reading its name back gives it again.
pub proof fn law_pseudo_class_name_round_trip(p: NonTSPseudoClass)
    requires
        !(p is HasText),
        !(p is Contains),
    ensures
        pseudo_class_named(pseudo_css(p).drop_first()) == Some(p),
{
    reveal_strlit(":any-link");
    reveal_strlit("any-link");
    reveal_strlit(":link");
    reveal_strlit("link");
    reveal_strlit(":visited");
    reveal_strlit("visited");
    reveal_strlit(":active");
    reveal_strlit("active");
    reveal_strlit(":focus");
    reveal_strlit("focus");
    reveal_strlit(":hover");
    reveal_strlit("hover");
    reveal_strlit(":enabled");
    reveal_strlit("enabled");
    reveal_strlit(":disabled");
    reveal_strlit("disabled");
    reveal_strlit(":checked");
    reveal_strlit("checked");
    reveal_strlit(":indeterminate");
    reveal_strlit("indeterminate");
    reveal_strlit(":only-text");
    reveal_strlit("only-text");
    let name = pseudo_css(p).drop_first();
    match p {
        NonTSPseudoClass::AnyLink => {
            assert(name =~= "any-link"@);
        },
        NonTSPseudoClass::Link => {
            assert(name =~= "link"@);
            assert(!eq_ignore_case(name, "any-link"@));
        },
        NonTSPseudoClass::Visited => {
            assert(name =~= "visited"@);
            assert(!eq_ignore_case(name, "any-link"@));
            assert(!eq_ignore_case(name, "link"@));
        },
        NonTSPseudoClass::Active => {
            assert(name =~= "active"@);
            assert(!eq_ignore_case(name, "any-link"@));
            assert(!eq_ignore_case(name, "link"@));
            assert(!eq_ignore_case(name, "visited"@));
        },
        NonTSPseudoClass::Focus => {
            assert(name =~= "focus"@);
            assert(!eq_ignore_case(name, "any-link"@));
            assert(!eq_ignore_case(name, "link"@));
            assert(!eq_ignore_case(name, "visited"@));
            assert(!eq_ignore_case(name, "active"@));
        },
        NonTSPseudoClass::Hover => {
            assert(name =~= "hover"@);
            assert(!eq_ignore_case(name, "any-link"@));
            assert(!eq_ignore_case(name, "link"@));
            assert(!eq_ignore_case(name, "visited"@));
            assert(!eq_ignore_case(name, "active"@));
            assert(!eq_ignore_case(name, "focus"@)) by {
                assert(crate::pseudo::ascii_lower(name[0]) != crate::pseudo::ascii_lower("focus"@[0]));
            }
        },
        NonTSPseudoClass::Enabled => {
            assert(name =~= "enabled"@);
            assert(!eq_ignore_case(name, "any-link"@));
            assert(!eq_ignore_case(name, "link"@));
            assert(!eq_ignore_case(name, "visited"@)) by {
                assert(crate::pseudo::ascii_lower(name[0]) != crate::pseudo::ascii_lower("visited"@[0]));
            }
            assert(!eq_ignore_case(name, "active"@));
            assert(!eq_ignore_case(name, "focus"@));
            assert(!eq_ignore_case(name, "hover"@));
        },
        NonTSPseudoClass::Disabled => {
            assert(name =~= "disabled"@);
            assert(!eq_ignore_case(name, "any-link"@)) by {
                assert(crate::pseudo::ascii_lower(name[0]) != crate::pseudo::ascii_lower("any-link"@[0]));
            }
            assert(!eq_ignore_case(name, "link"@));
            assert(!eq_ignore_case(name, "visited"@));
            assert(!eq_ignore_case(name, "active"@));
            assert(!eq_ignore_case(name, "focus"@));
            assert(!eq_ignore_case(name, "hover"@));
            assert(!eq_ignore_case(name, "enabled"@));
        },
        NonTSPseudoClass::Checked => {
            assert(name =~= "checked"@);
            assert(!eq_ignore_case(name, "any-link"@));
            assert(!eq_ignore_case(name, "link"@));
            assert(!eq_ignore_case(name, "visited"@)) by {
                assert(crate::pseudo::ascii_lower(name[0]) != crate::pseudo::ascii_lower("visited"@[0]));
            }
            assert(!eq_ignore_case(name, "active"@));
            assert(!eq_ignore_case(name, "focus"@));
            assert(!eq_ignore_case(name, "hover"@));
            assert(!eq_ignore_case(name, "enabled"@)) by {
                assert(crate::pseudo::ascii_lower(name[0]) != crate::pseudo::ascii_lower("enabled"@[0]));
            }
            assert(!eq_ignore_case(name, "disabled"@));
        },
        NonTSPseudoClass::Indeterminate => {
            assert(name =~= "indeterminate"@);
            assert(!eq_ignore_case(name, "any-link"@));
            assert(!eq_ignore_case(name, "link"@));
            assert(!eq_ignore_case(name, "visited"@));
            assert(!eq_ignore_case(name, "active"@));
            assert(!eq_ignore_case(name, "focus"@));
            assert(!eq_ignore_case(name, "hover"@));
            assert(!eq_ignore_case(name, "enabled"@));
            assert(!eq_ignore_case(name, "disabled"@));
            assert(!eq_ignore_case(name, "checked"@));
        },
        NonTSPseudoClass::OnlyText => {
            assert(name =~= "only-text"@);
            assert(!eq_ignore_case(name, "any-link"@)) by {
                assert(crate::pseudo::ascii_lower(name[0]) != crate::pseudo::ascii_lower("any-link"@[0]));
            }
            assert(!eq_ignore_case(name, "link"@));
            assert(!eq_ignore_case(name, "visited"@));
            assert(!eq_ignore_case(name, "active"@));
            assert(!eq_ignore_case(name, "focus"@));
            assert(!eq_ignore_case(name, "hover"@));
            assert(!eq_ignore_case(name, "enabled"@));
            assert(!eq_ignore_case(name, "disabled"@));
            assert(!eq_ignore_case(name, "checked"@));
            assert(!eq_ignore_case(name, "indeterminate"@));
        },
        _ => {},
    }
}

} // verus!

verus! {

/// The steps that write each of the first `k` nodes of `cs` with the node included,
/// one after the other.
pub open spec fn each_serialized(t: Tree, cs: Seq<usize>, k: int) -> Seq<SerializeStep>
    decreases k,
{
    if k <= 0 {
        Seq::empty()
    } else {
        each_serialized(t, cs, k - 1) + serialized(t, cs[k - 1] as int, TraversalScope::IncludeNode)
    }
}

/// Writing only the children of a node gives the writings of its children, each with
/// the child included, in order.
pub proof fn law_children_only_is_each_child(t: Tree, x: int)
    requires
        t.wf(),
        0 <= x < t.len(),
    ensures
        serialized(t, x, TraversalScope::ChildrenOnly) == each_serialized(t, t.children(x), t.children(x).len() as int),
{
    let cs = t.children(x);
    lemma_children_in_tree(t, x);
    lemma_forest_is_each(t, cs, cs.len() as int);
}

proof fn lemma_children_in_tree(t: Tree, x: int)
    requires
        t.wf(),
        0 <= x < t.len(),
    ensures
        forall|j: int| 0 <= j < t.children(x).len() ==> #[trigger] t.children(x)[j] < t.len(),
{
    assert forall|j: int| 0 <= j < t.children(x).len() implies #[trigger] t.children(x)[j] < t.len() by {
        crate::reparent::lemma_children_are_childs(t.nodes@, t.chains@, t.pos@, t.depth@, x);
    }
}

proof fn lemma_forest_is_each(t: Tree, cs: Seq<usize>, k: int)
    requires
        0 <= k <= cs.len(),
        forall|j: int| 0 <= j < cs.len() ==> #[trigger] cs[j] < t.len(),
    ensures
        ser_forest(t, cs, k, t.len()) == each_serialized(t, cs, k),
    decreases k,
{
    if k > 0 {
        lemma_forest_is_each(t, cs, k - 1);
        assert(cs[k - 1] < t.len());
    }
}

/// `w` holds no whitespace.
pub open spec fn no_ws(w: Seq<char>) -> bool {
    forall|k: int| 0 <= k < w.len() ==> !is_ws(#[trigger] w[k])
}

/// A word of `v` stays a word once a space and more text follow `v`.
proof fn lemma_word_kept(v: Seq<char>, u: Seq<char>, w: Seq<char>)
    requires
        has_word(v, w, true),
    ensures
        has_word(v + seq![' '] + u, w, true),
{
    let i = choose|i: int| is_word_at(v, w, i, true);
    let v2 = v + seq![' '] + u;
    assert(v2.subrange(i, i + w.len()) =~= v.subrange(i, i + w.len()));
    assert(is_ws(' '));
    assert(is_word_at(v2, w, i, true));
}

/// A word without whitespace, put after `v` and a space, is a word of the result.
proof fn lemma_word_appended(v: Seq<char>, w: Seq<char>)
    requires
        w.len() > 0,
        no_ws(w),
    ensures
        has_word(v + seq![' '] + w, w, true),
{
    let v2 = v + seq![' '] + w;
    let i: int = v.len() as int + 1;
    assert(v2.subrange(i, i + w.len()) =~= w);
    assert(is_ws(' '));
    assert(is_word_at(v2, w, i, true));
}

proof fn lemma_add_words_keeps(v: Seq<char>, ws: Seq<Seq<char>>, w: Seq<char>)
    requires
        has_word(v, w, true),
    ensures
        has_word(add_words(v, ws), w, true),
    decreases ws.len(),
{
    if ws.len() > 0 {
        lemma_add_words_keeps(v, ws.drop_last(), w);
        let v1 = add_words(v, ws.drop_last());
        if !has_word(v1, ws.last(), true) {
            lemma_word_kept(v1, ws.last(), w);
        }
    }
}

proof fn lemma_add_words_prefix(v: Seq<char>, ws: Seq<Seq<char>>)
    ensures
        add_words(v, ws).len() >= v.len(),
        add_words(v, ws).subrange(0, v.len() as int) == v,
    decreases ws.len(),
{
    if ws.len() > 0 {
        lemma_add_words_prefix(v, ws.drop_last());
        let v1 = add_words(v, ws.drop_last());
        assert((v1 + seq![' '] + ws.last()).subrange(0, v.len() as int) =~= v1.subrange(0, v.len() as int));
    }
}

proof fn lemma_add_words_has(v: Seq<char>, ws: Seq<Seq<char>>, j: int)
    requires
        0 <= j < ws.len(),
        ws[j].len() > 0,
        no_ws(ws[j]),
    ensures
        has_word(add_words(v, ws), ws[j], true),
    decreases ws.len(),
{
    let v1 = add_words(v, ws.drop_last());
    if j == ws.len() - 1 {
        if !has_word(v1, ws.last(), true) {
            lemma_word_appended(v1, ws.last());
        }
    } else {
        assert(ws.drop_last()[j] == ws[j]);
        lemma_add_words_has(v, ws.drop_last(), j);
        if !has_word(v1, ws.last(), true) {
            lemma_word_kept(v1, ws.last(), ws[j]);
        }
    }
}

proof fn lemma_join_words_has(ws: Seq<Seq<char>>, j: int)
    requires
        0 <= j < ws.len(),
        forall|k: int| 0 <= k < ws.len() ==> (#[trigger] ws[k]).len() > 0 && no_ws(ws[k]),
    ensures
        has_word(join_words(ws), ws[j], true),
    decreases ws.len(),
{
    if ws.len() == 1 {
        let w = ws[0];
        assert(w.subrange(0, w.len() as int) =~= w);
        assert(is_word_at(w, w, 0, true));
    } else {
        let v1 = join_words(ws.drop_last());
        if j == ws.len() - 1 {
            lemma_word_appended(v1, ws.last());
        } else {
            assert(ws.drop_last()[j] == ws[j]);
            assert forall|k: int| 0 <= k < ws.drop_last().len() implies (#[trigger] ws.drop_last()[k]).len() > 0 && no_ws(ws.drop_last()[k]) by {
                assert(ws.drop_last()[k] == ws[k]);
            }
            lemma_join_words_has(ws.drop_last(), j);
            lemma_word_kept(v1, ws.last(), ws[j]);
        }
    }
}

/// Every character of a piece between spaces is a character of `s` other than a space.
proof fn lemma_space_pieces_chars(s: Seq<char>)
    ensures
        space_pieces(s).len() > 0,
        forall|j: int, k: int| 0 <= j < space_pieces(s).len() && 0 <= k < space_pieces(s)[j].len() ==> {
            &&& #[trigger] space_pieces(s)[j][k] != ' '
            &&& s.contains(space_pieces(s)[j][k])
        },
    decreases s.len(),
{
    if s.len() > 0 {
        let s0 = s.drop_last();
        lemma_space_pieces_chars(s0);
        let r = space_pieces(s0);
        assert forall|c: char| s0.contains(c) implies s.contains(c) by {
            let i = choose|i: int| 0 <= i < s0.len() && s0[i] == c;
            assert(s[i] == c);
        }
        assert(s[s.len() - 1] == s.last());
        if s.last() == ' ' {
            assert forall|j: int, k: int| 0 <= j < space_pieces(s).len() && 0 <= k < space_pieces(s)[j].len() implies {
                &&& #[trigger] space_pieces(s)[j][k] != ' '
                &&& s.contains(space_pieces(s)[j][k])
            } by {
                assert(space_pieces(s)[j] == r.push(Seq::<char>::empty())[j]);
                if j < r.len() {
                    assert(space_pieces(s)[j][k] == r[j][k]);
                }
            }
        } else {
            assert forall|j: int, k: int| 0 <= j < space_pieces(s).len() && 0 <= k < space_pieces(s)[j].len() implies {
                &&& #[trigger] space_pieces(s)[j][k] != ' '
                &&& s.contains(space_pieces(s)[j][k])
            } by {
                if j < r.len() - 1 {
                    assert(space_pieces(s)[j] == r[j]);
                    assert(space_pieces(s)[j][k] == r[j][k]);
                } else {
                    assert(space_pieces(s)[j] == r.last().push(s.last()));
                    if k < r.last().len() {
                        assert(space_pieces(s)[j][k] == r[r.len() - 1][k]);
                    }
                }
            }
        }
    }
}

proof fn lemma_filter_from<A>(ps: Seq<A>, pred: spec_fn(A) -> bool)
    ensures
        forall|i: int| 0 <= i < ps.filter(pred).len() ==> ps.contains(#[trigger] ps.filter(pred)[i]),
    decreases ps.len(),
{
    reveal(Seq::filter);
    if ps.len() > 0 {
        lemma_filter_from(ps.drop_last(), pred);
        let f0 = ps.drop_last().filter(pred);
        assert forall|i: int| 0 <= i < ps.filter(pred).len() implies ps.contains(#[trigger] ps.filter(pred)[i]) by {
            if i < f0.len() {
                assert(ps.filter(pred)[i] == f0[i]);
                let k = choose|k: int| 0 <= k < ps.drop_last().len() && ps.drop_last()[k] == f0[i];
                assert(ps[k] == f0[i]);
            } else {
                assert(ps.filter(pred)[i] == ps.last());
                assert(ps[ps.len() - 1] == ps.last());
            }
        }
    }
}

proof fn lemma_dedup_from(ps: Seq<Seq<char>>)
    ensures
        forall|i: int| 0 <= i < dedup(ps).len() ==> ps.contains(#[trigger] dedup(ps)[i]),
    decreases ps.len(),
{
    if ps.len() > 0 {
        lemma_dedup_from(ps.drop_last());
        let r = dedup(ps.drop_last());
        assert forall|i: int| 0 <= i < dedup(ps).len() implies ps.contains(#[trigger] dedup(ps)[i]) by {
            if i < r.len() {
                assert(dedup(ps)[i] == r[i]);
                let k = choose|k: int| 0 <= k < ps.drop_last().len() && ps.drop_last()[k] == r[i];
                assert(ps[k] == r[i]);
            } else {
                assert(ps[ps.len() - 1] == ps.last());
            }
        }
    }
}

/// The words that `add_class` takes from `classes` are nonempty and, when the only
/// whitespace in `classes` is the space, hold no whitespace.
proof fn lemma_class_words_clean(classes: Seq<char>)
    requires
        forall|k: int| 0 <= k < classes.len() && is_ws(#[trigger] classes[k]) ==> classes[k] == ' ',
    ensures
        forall|j: int| 0 <= j < class_words(classes).len() ==> (#[trigger] class_words(classes)[j]).len() > 0
            && no_ws(class_words(classes)[j]),
{
    let ps = space_pieces(classes);
    let ts = trims(ps);
    let ns = nonempty(ts);
    lemma_space_pieces_chars(classes);
    lemma_dedup_from(ns);
    lemma_filter_from(ts, |p: Seq<char>| p.len() > 0);
    assert forall|j: int| 0 <= j < class_words(classes).len() implies (#[trigger] class_words(classes)[j]).len() > 0
        && no_ws(class_words(classes)[j]) by {
        let w = class_words(classes)[j];
        assert(ns.contains(w));
        let a = choose|a: int| 0 <= a < ns.len() && ns[a] == w;
        ts.lemma_filter_pred(|p: Seq<char>| p.len() > 0, a);
        assert(ts.contains(w));
        let b = choose|b: int| 0 <= b < ts.len() && ts[b] == w;
        let p = ps[b];
        assert(w == trim(p));
        let t = p.skip(lead_ws(p) as int);
        assert forall|k: int| 0 <= k < w.len() implies !is_ws(#[trigger] w[k]) by {
            assert(w[k] == p[lead_ws(p) + k]);
            let c = p[lead_ws(p) + k];
            assert(c != ' ' && classes.contains(c));
            let i = choose|i: int| 0 <= i < classes.len() && classes[i] == c;
        }
    }
}

/// Adding classes keeps each class that the value had, adds each class named (when the
/// only whitespace in the argument is the space), and keeps the old value as the start
/// of the new one. Without a class value before, every class named is in the new one.
pub proof fn law_add_class_words(v: Seq<char>, classes: Seq<char>)
    requires
        forall|k: int| 0 <= k < classes.len() && is_ws(#[trigger] classes[k]) ==> classes[k] == ' ',
    ensures
        forall|w: Seq<char>| has_word(v, w, true) ==> #[trigger] has_word(add_words(v, class_words(classes)), w, true),
        forall|j: int| 0 <= j < class_words(classes).len()
            ==> has_word(add_words(v, class_words(classes)), #[trigger] class_words(classes)[j], true),
        forall|j: int| 0 <= j < class_words(classes).len()
            ==> has_word(join_words(class_words(classes)), #[trigger] class_words(classes)[j], true),
        add_words(v, class_words(classes)).subrange(0, v.len() as int) == v,
{
    let ws = class_words(classes);
    lemma_class_words_clean(classes);
    assert forall|w: Seq<char>| has_word(v, w, true) implies #[trigger] has_word(add_words(v, ws), w, true) by {
        lemma_add_words_keeps(v, ws, w);
    }
    assert forall|j: int| 0 <= j < ws.len() implies has_word(add_words(v, ws), #[trigger] ws[j], true) by {
        lemma_add_words_has(v, ws, j);
    }
    assert forall|j: int| 0 <= j < ws.len() implies has_word(join_words(ws), #[trigger] ws[j], true) by {
        lemma_join_words_has(ws, j);
    }
    lemma_add_words_prefix(v, ws);
}

/// A word of `v`, a space and `u` (a nonempty run without whitespace) is a word of `v`
/// or is `u`.
proof fn lemma_word_split(v: Seq<char>, u: Seq<char>, w: Seq<char>)
    requires
        u.len() > 0,
        no_ws(u),
        has_word(v + seq![' '] + u, w, true),
    ensures
        has_word(v, w, true) || w == u,
{
    let v2 = v + seq![' '] + u;
    let i = choose|i: int| is_word_at(v2, w, i, true);
    let n = v.len() as int;
    assert(w[0] == v2[i]);
    if i + w.len() <= n {
        assert(v.subrange(i, i + w.len()) =~= v2.subrange(i, i + w.len()));
        if i > 0 {
            assert(v[i - 1] == v2[i - 1]);
        }
        if i + w.len() < n {
            assert(v[i + w.len()] == v2[i + w.len()]);
        }
        assert(is_word_at(v, w, i, true));
    } else if i <= n {
        assert(v2[n] == ' ');
        assert(w[n - i] == v2[n]);
        assert(is_ws(' '));
    } else {
        assert(i == n + 1) by {
            if i > n + 1 {
                assert(v2[i - 1] == u[i - 1 - n - 1]);
            }
        }
        assert(i + w.len() == v2.len()) by {
            if i + w.len() < v2.len() {
                assert(v2[i + w.len()] == u[w.len() as int]);
            }
        }
        assert(w =~= u) by {
            assert forall|k: int| 0 <= k < w.len() implies w[k] == u[k] by {
                assert(w[k] == v2.subrange(i, i + w.len())[k]);
            }
        }
    }
}

proof fn lemma_join_words_only(ws: Seq<Seq<char>>, w: Seq<char>)
    requires
        forall|k: int| 0 <= k < ws.len() ==> (#[trigger] ws[k]).len() > 0 && no_ws(ws[k]),
        has_word(join_words(ws), w, true),
    ensures
        ws.contains(w),
    decreases ws.len(),
{
    if ws.len() == 0 {
        let i = choose|i: int| is_word_at(join_words(ws), w, i, true);
    } else if ws.len() == 1 {
        let i = choose|i: int| is_word_at(ws[0], w, i, true);
        assert(i == 0) by {
            if i > 0 {
                assert(ws[0][i - 1] == join_words(ws)[i - 1]);
            }
        }
        assert(w.len() == ws[0].len()) by {
            if w.len() < ws[0].len() {
                assert(ws[0][w.len() as int] == join_words(ws)[w.len() as int]);
            }
        }
        assert(w =~= ws[0]) by {
            assert forall|k: int| 0 <= k < w.len() implies w[k] == ws[0][k] by {
                assert(w[k] == ws[0].subrange(0, w.len() as int)[k]);
            }
        }
    } else {
        let w0 = ws.drop_last();
        assert forall|k: int| 0 <= k < w0.len() implies (#[trigger] w0[k]).len() > 0 && no_ws(w0[k]) by {
            assert(w0[k] == ws[k]);
        }
        assert(ws[ws.len() - 1] == ws.last());
        lemma_word_split(join_words(w0), ws.last(), w);
        if w != ws.last() {
            lemma_join_words_only(w0, w);
            let k = choose|k: int| 0 <= k < w0.len() && w0[k] == w;
            assert(ws[k] == w);
        }
    }
}

proof fn lemma_add_words_only(v: Seq<char>, ws: Seq<Seq<char>>, w: Seq<char>)
    requires
        forall|k: int| 0 <= k < ws.len() ==> (#[trigger] ws[k]).len() > 0 && no_ws(ws[k]),
        has_word(add_words(v, ws), w, true),
    ensures
        has_word(v, w, true) || ws.contains(w),
    decreases ws.len(),
{
    if ws.len() > 0 {
        let w0 = ws.drop_last();
        assert forall|k: int| 0 <= k < w0.len() implies (#[trigger] w0[k]).len() > 0 && no_ws(w0[k]) by {
            assert(w0[k] == ws[k]);
        }
        assert(ws[ws.len() - 1] == ws.last());
        let v1 = add_words(v, w0);
        if !has_word(v1, ws.last(), true) {
            lemma_word_split(v1, ws.last(), w);
        }
        if w != ws.last() {
            lemma_add_words_only(v, w0, w);
            if w0.contains(w) {
                let k = choose|k: int| 0 <= k < w0.len() && w0[k] == w;
                assert(ws[k] == w);
            }
        }
    }
}

/// Every class of the value that `add_class` leaves was there before or was named.
pub proof fn law_add_class_adds_only_named(v: Seq<char>, classes: Seq<char>, w: Seq<char>)
    requires
        forall|k: int| 0 <= k < classes.len() && is_ws(#[trigger] classes[k]) ==> classes[k] == ' ',
        has_word(add_words(v, class_words(classes)), w, true),
    ensures
        has_word(v, w, true) || class_words(classes).contains(w),
{
    lemma_class_words_clean(classes);
    lemma_add_words_only(v, class_words(classes), w);
}

/// Removing classes from a class value whose only whitespace is the space leaves exactly
/// its classes that were not named: none of the named ones, each of the others.
pub proof fn law_remove_class_words(v: Seq<char>, class: Seq<char>, w: Seq<char>)
    requires
        forall|k: int| 0 <= k < v.len() && is_ws(#[trigger] v[k]) ==> v[k] == ' ',
    ensures
        has_word(join_words(class_words(v).filter(|x: Seq<char>| !class_words(class).contains(x))), w, true)
            <==> (class_words(v).contains(w) && !class_words(class).contains(w)),
{
    let pred = |x: Seq<char>| !class_words(class).contains(x);
    let ws = class_words(v);
    let fs = ws.filter(pred);
    lemma_class_words_clean(v);
    lemma_filter_from(ws, pred);
    assert forall|k: int| 0 <= k < fs.len() implies (#[trigger] fs[k]).len() > 0 && no_ws(fs[k]) by {
        assert(ws.contains(fs[k]));
        let a = choose|a: int| 0 <= a < ws.len() && ws[a] == fs[k];
        assert(ws[a].len() > 0 && no_ws(ws[a]));
    }
    if has_word(join_words(fs), w, true) {
        lemma_join_words_only(fs, w);
        let k = choose|k: int| 0 <= k < fs.len() && fs[k] == w;
        assert(ws.contains(fs[k]));
        ws.lemma_filter_pred(pred, k);
    }
    if ws.contains(w) && !class_words(class).contains(w) {
        let a = choose|a: int| 0 <= a < ws.len() && ws[a] == w;
        ws.lemma_filter_contains(pred, a);
        let k = choose|k: int| 0 <= k < fs.len() && fs[k] == w;
        lemma_join_words_has(fs, k);
    }
}

/// Inserting node `y` before node `x`, whose parent is `p`, puts `y` right before `x`
/// among the children of `p`, which are otherwise those that `p` had once `y` left;
/// `y` gets `p` as its parent, a parent that `y` left loses it and keeps its other
/// children in order, and what lies below `y` stays below it.
pub proof fn law_insert_before(t0: Tree, t1: Tree, x: int, y: int, p: usize)
    requires
        t0.wf(),
        0 <= x < t0.len(),
        0 <= y < t0.len(),
        x != y,
        t0.parent(x) == Some(p),
        moved(t0, t1, y, t0.parent(x), siblings_without(t0, y, x), index_without(t0, y, x)),
    ensures
        ({
            let c = children_without(t0, y, p as int);
            let k = index_without(t0, y, x);
            &&& 0 <= k < c.len()
            &&& c[k] == x as usize
            &&& t1.children(p as int) == c.insert(k, y as usize)
            &&& t1.children(p as int)[k + 1] == x as usize
        }),
        t1.parent(y) == Some(p),
        forall|q: usize| q < t0.len() && q != p ==> #[trigger] t1.children(q as int) == children_without(t0, y, q as int),
        forall|m: int| 0 <= m < t0.len() ==> #[trigger] t1.is_inclusive_descendant(m, y) == t0.is_inclusive_descendant(m, y),
{
    let n = t0.nodes@;
    let ch = t0.chains@;
    assert(p < t0.len()) by {
        assert(crate::tree::node_ok(n, ch, t0.pos@, t0.depth@, x));
    }
    crate::reparent::lemma_children_are_childs(n, ch, t0.pos@, t0.depth@, p as int);
    let cp = t0.children(p as int);
    assert(crate::tree::node_ok(n, ch, t0.pos@, t0.depth@, x));
    assert(crate::tree::node_ok(n, ch, t0.pos@, t0.depth@, y));
    assert(cp.contains(x as usize));
    let jx = choose|j: int| 0 <= j < cp.len() && cp[j] == x as usize;
    assert(t0.siblings(x) == cp && t0.index(x) == jx);
    let c = children_without(t0, y, p as int);
    let k = index_without(t0, y, x);
    if t0.parent(y) == Some(p) {
        assert(cp.contains(y as usize));
        let jy = choose|j: int| 0 <= j < cp.len() && cp[j] == y as usize;
        assert(t0.siblings(y) == cp && t0.index(y) == jy);
        assert(c == cp.remove(jy));
        assert(siblings_without(t0, y, x) == c);
    } else {
        assert(t0.siblings(y) != t0.siblings(x)) by {
            if t0.siblings(y) == t0.siblings(x) {
                assert(ch[y][t0.pos@[y] as int] == y);
                assert(cp[t0.index(y)] == y as usize);
            }
        }
        assert(c == cp);
        assert(siblings_without(t0, y, x) == c);
    }
    assert(c[k] == x as usize);
    let u = t1.children(p as int);
    assert(u == c.insert(k, y as usize));
    assert(u[k + 1] == x as usize);
}

/// `xs` is a chain for the first `xs.len()` selectors of `ms`: its `i`-th node matches
/// selector `i`, and each node of it is a proper ancestor of the next.
pub open spec fn is_chain(t: Tree, ms: Seq<SelModel>, xs: Seq<int>) -> bool {
    &&& xs.len() <= ms.len()
    &&& forall|i: int| 0 <= i < xs.len() ==> 0 <= #[trigger] xs[i] < t.len() && node_matches(ms[i], t.node(xs[i]))
    &&& forall|i: int| 0 <= i < xs.len() - 1 ==> #[trigger] xs[i] != xs[i + 1] && t.is_inclusive_descendant(xs[i + 1], xs[i])
}

/// Some chain for the first `k` selectors of `ms` ends at node `x`.
pub open spec fn chain_ends_at(t: Tree, ms: Seq<SelModel>, k: int, x: int) -> bool {
    exists|xs: Seq<int>| #[trigger] is_chain(t, ms, xs) && xs.len() == k && xs[k - 1] == x
}

/// Some chain for the first `k` selectors of `ms` ends at `c` or above it.
pub open spec fn chain_at_or_above(t: Tree, ms: Seq<SelModel>, k: int, c: int) -> bool {
    exists|xs: Seq<int>| #[trigger] is_chain(t, ms, xs) && xs.len() == k && t.is_inclusive_descendant(c, xs[k - 1])
}

proof fn lemma_desc_depth(t: Tree, m: int, a: int)
    requires
        crate::tree::is_desc(t.nodes@, t.depth@, m, a),
    ensures
        t.depth@[a] <= t.depth@[m],
    decreases t.depth@[m],
{
    if m != a {
        let q = t.parent(m).unwrap();
        lemma_desc_depth(t, q as int, a);
    }
}

proof fn lemma_desc_trans(t: Tree, m: int, b: int, a: int)
    requires
        crate::tree::is_desc(t.nodes@, t.depth@, m, b),
        crate::tree::is_desc(t.nodes@, t.depth@, b, a),
    ensures
        crate::tree::is_desc(t.nodes@, t.depth@, m, a),
    decreases t.depth@[m],
{
    if m != b {
        let q = t.parent(m).unwrap();
        lemma_desc_trans(t, q as int, b, a);
    }
}

/// What lies at or above the parent of `m` lies above `m`.
proof fn lemma_desc_parent(t: Tree, m: int, q: usize, a: int)
    requires
        t.wf(),
        0 <= m < t.len(),
        t.parent(m) == Some(q),
        crate::tree::is_desc(t.nodes@, t.depth@, q as int, a),
    ensures
        crate::tree::is_desc(t.nodes@, t.depth@, m, a),
        m != a,
{
    assert(node_ok(t.nodes@, t.chains@, t.pos@, t.depth@, m));
    assert(crate::tree::depth_ok(t.nodes@, t.depth@, m));
    assert(t.depth@[m] == t.depth@[q as int] + 1);
    lemma_desc_depth(t, q as int, a);
    assert(m != a);
    assert(crate::tree::is_desc(t.nodes@, t.depth@, m, a) == crate::tree::is_desc(t.nodes@, t.depth@, q as int, a));
}

/// A proper ancestor lies higher than the node.
proof fn lemma_desc_strict(t: Tree, m: int, a: int)
    requires
        crate::tree::is_desc(t.nodes@, t.depth@, m, a),
        m != a,
    ensures
        t.depth@[a] < t.depth@[m],
        t.parent(m) is Some,
        crate::tree::is_desc(t.nodes@, t.depth@, t.parent(m).unwrap() as int, a),
{
    let q = t.parent(m).unwrap();
    lemma_desc_depth(t, q as int, a);
}

/// A chain for `k` selectors, cut before its last node, is a chain for `k - 1`.
proof fn lemma_chain_take(t: Tree, ms: Seq<SelModel>, xs: Seq<int>)
    requires
        is_chain(t, ms, xs),
        xs.len() >= 1,
    ensures
        is_chain(t, ms, xs.drop_last()),
{
    let ys = xs.drop_last();
    assert forall|i: int| 0 <= i < ys.len() implies 0 <= #[trigger] ys[i] < t.len() && node_matches(ms[i], t.node(ys[i])) by {
        assert(ys[i] == xs[i]);
    }
    assert forall|i: int| 0 <= i < ys.len() - 1 implies #[trigger] ys[i] != ys[i + 1] && t.is_inclusive_descendant(ys[i + 1], ys[i]) by {
        assert(ys[i] == xs[i] && ys[i + 1] == xs[i + 1]);
    }
}

/// A chain for `k` selectors extended by a node below its last one that matches
/// selector `k` is a chain for `k + 1`.
proof fn lemma_chain_push(t: Tree, ms: Seq<SelModel>, xs: Seq<int>, c: int)
    requires
        is_chain(t, ms, xs),
        xs.len() >= 1,
        xs.len() < ms.len(),
        0 <= c < t.len(),
        node_matches(ms[xs.len() as int], t.node(c)),
        c != xs.last(),
        t.is_inclusive_descendant(c, xs.last()),
    ensures
        is_chain(t, ms, xs.push(c)),
{
    let ys = xs.push(c);
    assert forall|i: int| 0 <= i < ys.len() implies 0 <= #[trigger] ys[i] < t.len() && node_matches(ms[i], t.node(ys[i])) by {
        if i < xs.len() {
            assert(ys[i] == xs[i]);
        }
    }
    assert forall|i: int| 0 <= i < ys.len() - 1 implies #[trigger] ys[i] != ys[i + 1] && t.is_inclusive_descendant(ys[i + 1], ys[i]) by {
        if i < xs.len() - 1 {
            assert(ys[i] == xs[i] && ys[i + 1] == xs[i + 1]);
        } else {
            assert(ys[i] == xs.last() && ys[i + 1] == c);
        }
    }
}

proof fn lemma_walk_above(t: Tree, ms: Seq<SelModel>, k: int, start: usize, c: usize)
    requires
        t.wf(),
        1 <= k <= ms.len(),
        c < t.len(),
        start < t.len(),
        t.depth@[c as int] < t.depth@[start as int],
        forall|j: int| 0 <= j < k ==> (#[trigger] ms[j]).combinator == Combinator::Descendant,
    ensures
        list_walk(t, ms, k, start, Some(c), true) == chain_at_or_above(t, ms, k, c as int),
    decreases k, t.depth@[c as int],
{
    assert(node_ok(t.nodes@, t.chains@, t.pos@, t.depth@, c as int));
    let m = ms[k - 1];
    assert(m.combinator == Combinator::Descendant);
    let ci = c as int;
    if node_matches(m, t.node(ci)) {
        assert(seek(t, m, start, Some(c), true) == Seek::Go(t.parent(ci), true));
        if k == 1 {
            let xs = seq![ci];
            assert(is_chain(t, ms, xs));
            assert(crate::tree::is_desc(t.nodes@, t.depth@, ci, ci));
            assert(chain_at_or_above(t, ms, k, ci));
            assert(list_walk(t, ms, 0, start, t.parent(ci), true));
        } else {
            match t.parent(ci) {
                None => {
                    assert(!list_walk(t, ms, k - 1, start, None, true));
                    assert(!chain_at_or_above(t, ms, k, ci)) by {
                        if chain_at_or_above(t, ms, k, ci) {
                            let xs = choose|xs: Seq<int>| #[trigger] is_chain(t, ms, xs) && xs.len() == k && t.is_inclusive_descendant(ci, xs[k - 1]);
                            assert(xs[k - 1] == ci);
                            assert(xs[k - 2] != xs[k - 1] && t.is_inclusive_descendant(xs[k - 1], xs[k - 2]));
                            lemma_desc_strict(t, ci, xs[k - 2]);
                        }
                    }
                },
                Some(q) => {
                    assert(t.depth@[q as int] < t.depth@[ci]);
                    lemma_walk_above(t, ms, k - 1, start, q);
                    if chain_at_or_above(t, ms, k - 1, q as int) {
                        let xs = choose|xs: Seq<int>| #[trigger] is_chain(t, ms, xs) && xs.len() == k - 1 && t.is_inclusive_descendant(q as int, xs[k - 2]);
                        lemma_desc_parent(t, ci, q, xs.last());
                        lemma_chain_push(t, ms, xs, ci);
                        let ys = xs.push(ci);
                        assert(ys[k - 1] == ci);
                        assert(crate::tree::is_desc(t.nodes@, t.depth@, ci, ci));
                        assert(is_chain(t, ms, ys) && ys.len() == k && t.is_inclusive_descendant(ci, ys[k - 1]));
                    }
                    if chain_at_or_above(t, ms, k, ci) {
                        let xs = choose|xs: Seq<int>| #[trigger] is_chain(t, ms, xs) && xs.len() == k && t.is_inclusive_descendant(ci, xs[k - 1]);
                        let a = xs[k - 1];
                        let b = xs[k - 2];
                        assert(b != a && t.is_inclusive_descendant(a, b));
                        lemma_desc_trans(t, ci, a, b);
                        lemma_desc_strict(t, a, b);
                        lemma_desc_depth(t, ci, a);
                        lemma_desc_strict(t, ci, b);
                        lemma_chain_take(t, ms, xs);
                        let ys = xs.drop_last();
                        assert(ys[k - 2] == b);
                        assert(is_chain(t, ms, ys) && ys.len() == k - 1 && t.is_inclusive_descendant(q as int, ys[k - 2]));
                    }
                    assert(list_walk(t, ms, k, start, Some(c), true) == chain_at_or_above(t, ms, k, ci));
                },
            }
        }
    } else {
        assert(c != start);
        match t.parent(ci) {
            None => {
                assert(seek(t, m, start, Some(c), true) == Seek::Stop);
                assert(!chain_at_or_above(t, ms, k, ci)) by {
                    if chain_at_or_above(t, ms, k, ci) {
                        let xs = choose|xs: Seq<int>| #[trigger] is_chain(t, ms, xs) && xs.len() == k && t.is_inclusive_descendant(ci, xs[k - 1]);
                        assert(node_matches(ms[k - 1], t.node(xs[k - 1])));
                        if xs[k - 1] != ci {
                            lemma_desc_strict(t, ci, xs[k - 1]);
                        }
                    }
                }
            },
            Some(q) => {
                assert(t.depth@[q as int] < t.depth@[ci]);
                assert(seek(t, m, start, Some(c), true) == seek(t, m, start, Some(q), false));
                assert(seek(t, m, start, Some(q), false) == seek(t, m, start, Some(q), true));
                lemma_walk_above(t, ms, k, start, q);
                if chain_at_or_above(t, ms, k, q as int) {
                    let xs = choose|xs: Seq<int>| #[trigger] is_chain(t, ms, xs) && xs.len() == k && t.is_inclusive_descendant(q as int, xs[k - 1]);
                    lemma_desc_parent(t, ci, q, xs[k - 1]);
                    assert(is_chain(t, ms, xs) && xs.len() == k && t.is_inclusive_descendant(ci, xs[k - 1]));
                }
                if chain_at_or_above(t, ms, k, ci) {
                    let xs = choose|xs: Seq<int>| #[trigger] is_chain(t, ms, xs) && xs.len() == k && t.is_inclusive_descendant(ci, xs[k - 1]);
                    assert(node_matches(ms[k - 1], t.node(xs[k - 1])));
                    assert(xs[k - 1] != ci);
                    lemma_desc_strict(t, ci, xs[k - 1]);
                    assert(is_chain(t, ms, xs) && xs.len() == k && t.is_inclusive_descendant(q as int, xs[k - 1]));
                }
                assert(list_walk(t, ms, k, start, Some(c), true) == chain_at_or_above(t, ms, k, ci));
            },
        }
    }
}

/// A list of selectors joined by descendant combinators matches a node exactly when
/// there is a chain of nodes, one for each selector and in the same order, each
/// matching its selector and each a proper ancestor of the next, that ends at the node.
pub proof fn law_descendant_list(t: Tree, ms: Seq<SelModel>, x: usize)
    requires
        t.wf(),
        x < t.len(),
        ms.len() >= 1,
        forall|j: int| 0 <= j < ms.len() - 1 ==> (#[trigger] ms[j]).combinator == Combinator::Descendant,
    ensures
        list_walk(t, ms, ms.len() as int, x, Some(x), true) == chain_ends_at(t, ms, ms.len() as int, x as int),
{
    let n = ms.len() as int;
    let m = ms[n - 1];
    let xi = x as int;
    assert(node_ok(t.nodes@, t.chains@, t.pos@, t.depth@, xi));
    if node_matches(m, t.node(xi)) {
        assert(seek(t, m, x, Some(x), true) == Seek::Go(t.parent(xi), true));
        if n == 1 {
            let xs = seq![xi];
            assert(is_chain(t, ms, xs));
            assert(chain_ends_at(t, ms, n, xi));
            assert(list_walk(t, ms, 0, x, t.parent(xi), true));
        } else {
            match t.parent(xi) {
                None => {
                    assert(!list_walk(t, ms, n - 1, x, None, true));
                    assert(!chain_ends_at(t, ms, n, xi)) by {
                        if chain_ends_at(t, ms, n, xi) {
                            let xs = choose|xs: Seq<int>| #[trigger] is_chain(t, ms, xs) && xs.len() == n && xs[n - 1] == xi;
                            assert(xs[n - 2] != xs[n - 1] && t.is_inclusive_descendant(xs[n - 1], xs[n - 2]));
                            lemma_desc_strict(t, xi, xs[n - 2]);
                        }
                    }
                },
                Some(q) => {
                    assert(t.depth@[q as int] < t.depth@[xi]);
                    assert forall|j: int| 0 <= j < n - 1 implies (#[trigger] ms[j]).combinator == Combinator::Descendant by {}
                    lemma_walk_above(t, ms, n - 1, x, q);
                    if chain_at_or_above(t, ms, n - 1, q as int) {
                        let xs = choose|xs: Seq<int>| #[trigger] is_chain(t, ms, xs) && xs.len() == n - 1 && t.is_inclusive_descendant(q as int, xs[n - 2]);
                        lemma_desc_parent(t, xi, q, xs.last());
                        lemma_chain_push(t, ms, xs, xi);
                        let ys = xs.push(xi);
                        assert(is_chain(t, ms, ys) && ys.len() == n && ys[n - 1] == xi);
                    }
                    if chain_ends_at(t, ms, n, xi) {
                        let xs = choose|xs: Seq<int>| #[trigger] is_chain(t, ms, xs) && xs.len() == n && xs[n - 1] == xi;
                        let b = xs[n - 2];
                        assert(b != xs[n - 1] && t.is_inclusive_descendant(xs[n - 1], b));
                        lemma_desc_strict(t, xi, b);
                        lemma_chain_take(t, ms, xs);
                        let ys = xs.drop_last();
                        assert(ys[n - 2] == b);
                        assert(is_chain(t, ms, ys) && ys.len() == n - 1 && t.is_inclusive_descendant(q as int, ys[n - 2]));
                    }
                },
            }
        }
    } else {
        assert(seek(t, m, x, Some(x), true) == Seek::Stop);
        assert(!chain_ends_at(t, ms, n, xi)) by {
            if chain_ends_at(t, ms, n, xi) {
                let xs = choose|xs: Seq<int>| #[trigger] is_chain(t, ms, xs) && xs.len() == n && xs[n - 1] == xi;
                assert(node_matches(ms[n - 1], t.node(xs[n - 1])));
            }
        }
    }
}

/// In a well-formed tree the links of a node agree with its list of children: the
/// first and last child links name the ends of the list, each child names the node as
/// its parent, and consecutive children name each other as next and previous sibling,
/// with nothing before the first child and nothing after the last.
pub proof fn law_children_links(t: Tree, q: int)
    requires
        t.wf(),
        t.valid(q),
    ensures
        t.first(q) == (if t.children(q).len() == 0 { None } else { Some(t.children(q)[0]) }),
        t.last(q) == (if t.children(q).len() == 0 { None } else { Some(t.children(q).last()) }),
        forall|j: int| 0 <= j < t.children(q).len() ==> t.parent(#[trigger] t.children(q)[j] as int) == Some(q as usize),
        forall|j: int| 0 <= j < t.children(q).len() ==> t.next(#[trigger] t.children(q)[j] as int)
            == (if j + 1 == t.children(q).len() { None } else { Some(t.children(q)[j + 1]) }),
        forall|j: int| 0 <= j < t.children(q).len() ==> t.prev(#[trigger] t.children(q)[j] as int)
            == (if j == 0 { None } else { Some(t.children(q)[j - 1]) }),
{
    let n = t.nodes@;
    let cs = t.children(q);
    assert(node_ok(n, t.chains@, t.pos@, t.depth@, q));
    crate::reparent::lemma_children_are_childs(n, t.chains@, t.pos@, t.depth@, q);
    if let Some(f) = t.first(q) {
        assert(node_ok(n, t.chains@, t.pos@, t.depth@, f as int));
        assert(cs == t.chains@[f as int]);
        assert(cs.len() > 0);
        let l = t.last(q)->0;
        assert(node_ok(n, t.chains@, t.pos@, t.depth@, l as int));
        assert(t.parent(l as int) == Some(q as usize));
        assert(t.children(q) == t.chains@[l as int]);
        assert forall|j: int| 0 <= j < cs.len() implies t.next(#[trigger] cs[j] as int)
            == (if j + 1 == cs.len() { None } else { Some(cs[j + 1]) }) && t.prev(cs[j] as int)
            == (if j == 0 { None } else { Some(cs[j - 1]) }) by {
            assert(node_ok(n, t.chains@, t.pos@, t.depth@, cs[j] as int));
        }
    } else {
        assert(cs.len() == 0);
    }
}

/// The words of `ws` that `v` lacks, each once, in the order in which they first come.
pub open spec fn missing_words(v: Seq<char>, ws: Seq<Seq<char>>) -> Seq<Seq<char>>
    decreases ws.len(),
{
    if ws.len() == 0 {
        Seq::empty()
    } else {
        let m = missing_words(v, ws.drop_last());
        if has_word(v, ws.last(), true) || m.contains(ws.last()) { m } else { m.push(ws.last()) }
    }
}

/// Each word of `ms` after a space, in order.
pub open spec fn spaced(ms: Seq<Seq<char>>) -> Seq<char>
    decreases ms.len(),
{
    if ms.len() == 0 {
        Seq::empty()
    } else {
        spaced(ms.drop_last()) + seq![' '] + ms.last()
    }
}

proof fn lemma_add_words_missing(v: Seq<char>, ws: Seq<Seq<char>>)
    requires
        forall|k: int| 0 <= k < ws.len() ==> (#[trigger] ws[k]).len() > 0 && no_ws(ws[k]),
    ensures
        add_words(v, ws) == v + spaced(missing_words(v, ws)),
        forall|w: Seq<char>| w.len() > 0 && no_ws(w) ==>
            (#[trigger] has_word(add_words(v, ws), w, true) <==> (has_word(v, w, true) || missing_words(v, ws).contains(w))),
        missing_words(v, ws).no_duplicates(),
        forall|j: int| 0 <= j < missing_words(v, ws).len() ==>
            !has_word(v, #[trigger] missing_words(v, ws)[j], true) && ws.contains(missing_words(v, ws)[j]),
    decreases ws.len(),
{
    if ws.len() == 0 {
        assert(v + Seq::<char>::empty() =~= v);
    } else {
        let w0 = ws.drop_last();
        assert forall|k: int| 0 <= k < w0.len() implies (#[trigger] w0[k]).len() > 0 && no_ws(w0[k]) by {
            assert(w0[k] == ws[k]);
        }
        lemma_add_words_missing(v, w0);
        let x = ws.last();
        assert(ws[ws.len() - 1] == x);
        assert(x.len() > 0 && no_ws(x));
        let v1 = add_words(v, w0);
        let m0 = missing_words(v, w0);
        assert(has_word(v1, x, true) <==> (has_word(v, x, true) || m0.contains(x)));
        if !(has_word(v, x, true) || m0.contains(x)) {
            let m = m0.push(x);
            assert(m.drop_last() =~= m0);
            assert(spaced(m) == spaced(m0) + seq![' '] + x);
            assert(v1 + seq![' '] + x =~= v + spaced(m));
            assert forall|w: Seq<char>| w.len() > 0 && no_ws(w) implies
                (#[trigger] has_word(add_words(v, ws), w, true) <==> (has_word(v, w, true) || m.contains(w))) by {
                assert(has_word(v1, w, true) <==> (has_word(v, w, true) || m0.contains(w)));
                if has_word(v1 + seq![' '] + x, w, true) {
                    lemma_word_split(v1, x, w);
                    if w != x {
                        assert(m0.contains(w) ==> m.contains(w));
                    }
                }
                if has_word(v, w, true) || m.contains(w) {
                    if w == x {
                        lemma_word_appended(v1, x);
                    } else {
                        if m.contains(w) {
                            let j = choose|j: int| 0 <= j < m.len() && m[j] == w;
                            assert(m0[j] == w);
                        }
                        lemma_word_kept(v1, x, w);
                    }
                }
            }
            assert forall|j: int| 0 <= j < m.len() implies
                !has_word(v, #[trigger] m[j], true) && ws.contains(m[j]) by {
                if j < m0.len() {
                    assert(m[j] == m0[j]);
                    assert(w0.contains(m0[j]));
                    let k = choose|k: int| 0 <= k < w0.len() && w0[k] == m0[j];
                    assert(ws[k] == w0[k]);
                } else {
                    assert(ws[ws.len() - 1] == m[j]);
                }
            }
            assert forall|i: int, j: int| 0 <= i < m.len() && 0 <= j < m.len() && i != j implies m[i] != m[j] by {
                if i < m0.len() && j < m0.len() {
                    assert(m[i] == m0[i] && m[j] == m0[j]);
                } else if i < m0.len() {
                    assert(m[i] == m0[i]);
                } else if j < m0.len() {
                    assert(m[j] == m0[j]);
                }
            }
        }
    }
}

/// Adding classes (when the only whitespace in the argument is the space) appends to
/// the old class value, each after a space, the classes named that it lacks, each of
/// them once, in the order in which they are first named; nothing else changes.
pub proof fn law_add_class_appends_missing_once(v: Seq<char>, classes: Seq<char>)
    requires
        forall|k: int| 0 <= k < classes.len() && is_ws(#[trigger] classes[k]) ==> classes[k] == ' ',
    ensures
        add_words(v, class_words(classes)) == v + spaced(missing_words(v, class_words(classes))),
        missing_words(v, class_words(classes)).no_duplicates(),
        forall|j: int| 0 <= j < missing_words(v, class_words(classes)).len() ==> {
            &&& !has_word(v, #[trigger] missing_words(v, class_words(classes))[j], true)
            &&& class_words(classes).contains(missing_words(v, class_words(classes))[j])
        },
{
    lemma_class_words_clean(classes);
    lemma_add_words_missing(v, class_words(classes));
}

/// The words of `s`: its maximal runs of characters other than whitespace, in order.
pub open spec fn ws_words(s: Seq<char>) -> Seq<Seq<char>>
    decreases s.len(),
{
    if s.len() == 0 {
        Seq::empty()
    } else {
        let r = ws_words(s.drop_last());
        let c = s.last();
        if is_ws(c) {
            r
        } else if s.len() == 1 || is_ws(s[s.len() - 2]) {
            r.push(seq![c])
        } else {
            r.update(r.len() - 1, r.last().push(c))
        }
    }
}

proof fn lemma_norm_count_append(a: Seq<char>, b: Seq<char>, start: bool)
    ensures
        norm_count(a + b, start) == norm_count(a, start) + norm_count(b, if a.len() == 0 { start } else { is_ws(a.last()) }),
    decreases b.len(),
{
    if b.len() == 0 {
        assert(a + b =~= a);
    } else {
        let b0 = b.drop_last();
        lemma_norm_count_append(a, b0, start);
        assert((a + b).drop_last() =~= a + b0);
        assert((a + b).last() == b.last());
        if b.len() > 1 {
            assert((a + b)[(a + b).len() - 2] == b[b.len() - 2]);
        } else if a.len() > 0 {
            assert((a + b)[(a + b).len() - 2] == a.last());
        }
    }
}

proof fn lemma_norm_fold_texts(t: Tree, ids: Seq<usize>)
    ensures
        norm_fold(t, ids) == (norm_count(texts(t, ids), true),
            if texts(t, ids).len() == 0 { true } else { ends_ws(texts(t, ids)) }),
    decreases ids.len(),
{
    if ids.len() > 0 {
        let i0 = ids.drop_last();
        lemma_norm_fold_texts(t, i0);
        let a = texts(t, i0);
        let b = text_contents(t.data(ids.last() as int));
        lemma_norm_count_append(a, b, true);
        if b.len() > 0 {
            assert((a + b).last() == b.last());
        } else {
            assert(a + b =~= a);
        }
    }
}

proof fn lemma_ws_words_count(s: Seq<char>)
    ensures
        norm_count(s, true) == join_words(ws_words(s)).len() + (if ws_words(s).len() > 0 && ends_ws(s) { 1int } else { 0int }),
        s.len() > 0 && !is_ws(s.last()) ==> ws_words(s).len() > 0,
        s.len() == 0 ==> ws_words(s).len() == 0,
    decreases s.len(),
{
    if s.len() > 0 {
        let s0 = s.drop_last();
        lemma_ws_words_count(s0);
        let r = ws_words(s0);
        let c = s.last();
        if s.len() > 1 {
            assert(s0.last() == s[s.len() - 2]);
        }
        if !is_ws(c) {
            if s.len() == 1 || is_ws(s[s.len() - 2]) {
                let r2 = r.push(seq![c]);
                assert(r2.drop_last() =~= r);
                if r.len() == 0 {
                    assert(join_words(r2) == r2[0]);
                }
            } else {
                let r2 = r.update(r.len() - 1, r.last().push(c));
                if r.len() == 1 {
                    assert(join_words(r2) == r2[0]);
                    assert(join_words(r) == r[0]);
                } else {
                    assert(r2.drop_last() =~= r.drop_last());
                }
            }
        }
    }
}

/// The normalized count of a node's text is the number of characters of that text once
/// it is split into words at whitespace and the words are joined with single spaces.
pub proof fn law_normalized_count_is_joined_words(t: Tree, ids: Seq<usize>)
    ensures
        norm_total(t, ids) == join_words(ws_words(texts(t, ids))).len(),
{
    lemma_norm_fold_texts(t, ids);
    lemma_ws_words_count(texts(t, ids));
}

/// In a well-formed tree the sibling links of a node agree with its chain of siblings
/// (the node included): consecutive members name each other as next and previous
/// sibling, the first has no previous sibling and the last no next one, and all share
/// the node's parent.
pub proof fn law_sibling_links(t: Tree, m: int)
    requires
        t.wf(),
        t.valid(m),
    ensures
        forall|j: int| 0 <= j < t.siblings(m).len() ==> t.next(#[trigger] t.siblings(m)[j] as int)
            == (if j + 1 == t.siblings(m).len() { None } else { Some(t.siblings(m)[j + 1]) }),
        forall|j: int| 0 <= j < t.siblings(m).len() ==> t.prev(#[trigger] t.siblings(m)[j] as int)
            == (if j == 0 { None } else { Some(t.siblings(m)[j - 1]) }),
        forall|j: int| 0 <= j < t.siblings(m).len() ==> t.parent(#[trigger] t.siblings(m)[j] as int) == t.parent(m),
{
    let s = t.siblings(m);
    crate::chains::lemma_chain_members(t, m);
    assert forall|j: int| 0 <= j < s.len() implies t.next(#[trigger] s[j] as int)
        == (if j + 1 == s.len() { None } else { Some(s[j + 1]) }) && t.prev(s[j] as int)
        == (if j == 0 { None } else { Some(s[j - 1]) }) by {
        assert(node_ok(t.nodes@, t.chains@, t.pos@, t.depth@, s[j] as int));
    }
}

/// Closing a `br`, `hr`, `li` or `tr` element ends a line: the formatted text after
/// such an element, whatever came before it and whatever it holds, is empty or ends
/// with a line feed.
pub proof fn law_line_elements_end_a_line(t: Tree, x: usize, text: Seq<char>, fuel: nat)
    requires
        t.data(x as int) matches NodeData::Element(e) && {
            ||| e.name.local@ == "br"@
            ||| e.name.local@ == "hr"@
            ||| e.name.local@ == "li"@
            ||| e.name.local@ == "tr"@
        },
    ensures
        fmt_node(t, x, text, fuel).len() == 0 || fmt_node(t, x, text, fuel).last() == '\n',
{
    reveal_strlit("br");
    reveal_strlit("hr");
    reveal_strlit("li");
    reveal_strlit("tr");
    reveal_strlit("pre");
    reveal_strlit("td");
    reveal_strlit("th");
    let e = t.data(x as int)->Element_0;
    let l = e.name.local@;
    assert(l.len() == 2 && (l[1] == 'r' || l[1] == 'i'));
    assert(!requires_linebreak(l)) by {
        reveal_strlit("article");
        reveal_strlit("blockquote");
        reveal_strlit("section");
        reveal_strlit("div");
        reveal_strlit("p");
        reveal_strlit("h1");
        reveal_strlit("h2");
        reveal_strlit("h3");
        reveal_strlit("h4");
        reveal_strlit("h5");
        reveal_strlit("h6");
        reveal_strlit("ul");
        reveal_strlit("ol");
        reveal_strlit("dl");
        reveal_strlit("table");
    }
    assert(l != "pre"@);
    let r = fmt_node(t, x, text, fuel);
    let t1 = text;
    let t2 = if fuel == 0 {
        t1
    } else {
        let cs = t.children(x as int);
        fmt_forest(t, cs, cs.len() as int, t1, (fuel - 1) as nat)
    };
    assert(r == adjusted(t2, l));
    if t2.len() > 0 && ends_with(t2, two_newlines()) {
        assert(t2.last() == t2.skip(t2.len() - 2)[1]);
    }
}

/// The `~=` test with a non-empty value passes exactly when the value is one of the
/// pieces of the attribute value split at ASCII whitespace: it occurs there with
/// whitespace or an end of the value on each side, and holds no whitespace itself. A
/// value found only inside a longer piece does not pass.
pub proof fn law_includes_is_a_whole_piece(v: Seq<char>, e: Seq<char>)
    requires
        v.len() > 0,
    ensures
        attr_matches(AttrOperator::Includes, v, e) <==> {
            &&& forall|k: int| 0 <= k < v.len() ==> !is_ascii_ws(#[trigger] v[k])
            &&& exists|i: int| {
                &&& 0 <= i
                &&& i + v.len() <= e.len()
                &&& #[trigger] e.subrange(i, i + v.len()) == v
                &&& (i == 0 || is_ascii_ws(e[i - 1]))
                &&& (i + v.len() == e.len() || is_ascii_ws(e[i + v.len()]))
            }
        },
{
    if attr_matches(AttrOperator::Includes, v, e) {
        let i = choose|i: int| is_word_at(e, v, i, false);
        assert(e.subrange(i, i + v.len()) == v);
    }
    if (forall|k: int| 0 <= k < v.len() ==> !is_ascii_ws(#[trigger] v[k])) && exists|i: int| {
        &&& 0 <= i
        &&& i + v.len() <= e.len()
        &&& #[trigger] e.subrange(i, i + v.len()) == v
        &&& (i == 0 || is_ascii_ws(e[i - 1]))
        &&& (i + v.len() == e.len() || is_ascii_ws(e[i + v.len()]))
    } {
        let i = choose|i: int| {
            &&& 0 <= i
            &&& i + v.len() <= e.len()
            &&& #[trigger] e.subrange(i, i + v.len()) == v
            &&& (i == 0 || is_ascii_ws(e[i - 1]))
            &&& (i + v.len() == e.len() || is_ascii_ws(e[i + v.len()]))
        };
        assert(is_word_at(e, v, i, false));
        assert(e.len() > 0);
    }
}

/// Normalized text appended to `t` keeps `t` as its start.
proof fn lemma_normalized_text_keeps(t: Seq<char>, new: Seq<char>, escape: bool)
    ensures
        normalized_text(t, new, escape).len() >= t.len(),
        normalized_text(t, new, escape).subrange(0, t.len() as int) == t,
{
    let r = normalized_text(t, new, escape);
    assert(r.subrange(0, t.len() as int) =~= t);
}

/// A title added to `t` keeps `t` as its start.
proof fn lemma_with_title_keeps(t: Seq<char>, title: Option<Seq<char>>)
    ensures
        with_title(t, title).len() >= t.len(),
        with_title(t, title).subrange(0, t.len() as int) == t,
{
    if let Some(ti) = title {
        let a = t + " \""@;
        lemma_normalized_text_keeps(a, ti, true);
        let r = with_title(t, title);
        assert(r.subrange(0, t.len() as int) =~= a.subrange(0, a.len() as int).subrange(0, t.len() as int));
        assert(a.subrange(0, t.len() as int) =~= t);
    }
}

/// The shape of a written link: what came before (a trailing `!` escaped), `[`, the
/// text, `](`, the destination, and a closing `)`.
proof fn lemma_link_shape(s: Seq<char>, e: Element, href: Seq<char>, plain: Seq<char>)
    requires
        plain.len() > 0,
    ensures
        ({
            let r = link_written(s, e, href, plain, false);
            let b = bang_escaped(s);
            let d = seq![']', '('] + link_destination(href);
            &&& r.len() > b.len()
            &&& r.subrange(0, b.len() as int) == b
            &&& r[b.len() as int] == '['
            &&& r.last() == ')'
            &&& exists|i: int| i > b.len() && #[trigger] occurs_at(r, d, i)
        }),
{
    let r = link_written(s, e, href, plain, false);
    let b = bang_escaped(s);
    let s1 = b + seq!['['];
    let s2 = normalized_text(s1, plain, true);
    let d = seq![']', '('] + link_destination(href);
    let s3 = s2 + d;
    let w = with_title(s3, attr_value(e.attrs@, "title"@));
    assert(s2 + seq![']', '('] + link_destination(href) =~= s3);
    assert(r == w + seq![')']);
    lemma_normalized_text_keeps(s1, plain, true);
    lemma_with_title_keeps(s3, attr_value(e.attrs@, "title"@));
    assert(w.subrange(0, s3.len() as int) == s3);
    assert(r.subrange(0, b.len() as int) =~= s3.subrange(0, b.len() as int));
    assert(s3.subrange(0, b.len() as int) =~= s2.subrange(0, s1.len() as int).subrange(0, b.len() as int));
    assert(r[b.len() as int] == s3[b.len() as int]);
    assert(s3[b.len() as int] == s2.subrange(0, s1.len() as int)[b.len() as int]);
    assert(r.subrange(s2.len() as int, (s2.len() + d.len()) as int) =~= s3.subrange(s2.len() as int, s3.len() as int));
    assert(s3.subrange(s2.len() as int, s3.len() as int) =~= d);
    assert(s2.len() + d.len() <= r.len());
    assert(occurs_at(r, d, s2.len() as int));
}

/// A link with an address and some text is written as a Markdown link: after what
/// was written before it (a trailing `!` escaped), an opening `[`, then, after the
/// link's text, `](` and the address made a destination, and a closing `)` at the end.
pub proof fn law_link_written_with_address(t: Tree, s: Seq<char>, x: usize, e: Element, o: FormatOpts,
    skip: Seq<Seq<char>>, f: nat, href: Seq<char>)
    requires
        e.name.local@ == "a"@,
        f >= 2,
        attr_value(e.attrs@, "href"@) == Some(href),
        md_text_node(t, Seq::empty(), x, false, t.len()).len() > 0,
        forall|j: int| 1 <= j < subtree(t, x).len() ==> !is_img(#[trigger] t.data(subtree(t, x)[j] as int)),
    ensures
        ({
            let r = md_special(t, s, x, e, o, skip, f);
            let b = bang_escaped(s);
            let d = seq![']', '('] + link_destination(href);
            &&& r.len() > b.len()
            &&& r.subrange(0, b.len() as int) == b
            &&& r[b.len() as int] == '['
            &&& r.last() == ')'
            &&& exists|i: int| i > b.len() && #[trigger] occurs_at(r, d, i)
        }),
{
    reveal_strlit("a");
    reveal_strlit("ul");
    reveal_strlit("ol");
    assert(e.name.local@ != "ul"@ && e.name.local@ != "ol"@) by {
        assert(e.name.local@.len() == 1);
    }
    assert(md_special(t, s, x, e, o, skip, f) == md_link(t, s, x, e, skip, (f - 1) as nat));
    let plain = md_text_node(t, Seq::empty(), x, false, t.len());
    assert(!(exists|j: int| 1 <= j < subtree(t, x).len() && #[trigger] is_img(t.data(subtree(t, x)[j] as int))));
    assert(md_link(t, s, x, e, skip, (f - 1) as nat) == link_written(s, e, href, plain, false));
    lemma_link_shape(s, e, href, plain);
}

/// The nodes that a list of writing steps names as it writes them: every step but the
/// closing of an element names the node it writes.
pub open spec fn written_ids(steps: Seq<SerializeStep>) -> Seq<usize>
    decreases steps.len(),
{
    if steps.len() == 0 {
        Seq::empty()
    } else {
        written_ids(steps.drop_last()) + match steps.last() {
            SerializeStep::EndElem(_) => Seq::<usize>::empty(),
            SerializeStep::StartElem(i) => seq![i.value],
            SerializeStep::Doctype(i) => seq![i.value],
            SerializeStep::Text(i) => seq![i.value],
            SerializeStep::Comment(i) => seq![i.value],
            SerializeStep::ProcessingInstruction(i) => seq![i.value],
        }
    }
}

/// The nodes among `ids` that are written as something of their own: all but
/// documents and fragments.
pub open spec fn writable_nodes(t: Tree, ids: Seq<usize>) -> Seq<usize>
    decreases ids.len(),
{
    if ids.len() == 0 {
        Seq::empty()
    } else {
        writable_nodes(t, ids.drop_last()) + (if t.data(ids.last() as int) is Document || t.data(ids.last() as int) is Fragment {
            Seq::<usize>::empty()
        } else {
            seq![ids.last()]
        })
    }
}

/// Only elements, documents and fragments have children.
pub open spec fn only_containers_have_children(t: Tree) -> bool {
    forall|i: int| 0 <= i < t.len() && !(t.data(i) is Element || t.data(i) is Document || t.data(i) is Fragment)
        ==> (#[trigger] t.children(i)).len() == 0
}

proof fn lemma_written_ids_add(a: Seq<SerializeStep>, b: Seq<SerializeStep>)
    ensures
        written_ids(a + b) == written_ids(a) + written_ids(b),
    decreases b.len(),
{
    if b.len() == 0 {
        assert(a + b =~= a);
        assert(written_ids(a) + written_ids(b) =~= written_ids(a));
    } else {
        lemma_written_ids_add(a, b.drop_last());
        assert((a + b).drop_last() =~= a + b.drop_last());
        assert((a + b).last() == b.last());
        assert(written_ids(a) + written_ids(b.drop_last()) + written_ids(b).subrange(written_ids(b.drop_last()).len() as int, written_ids(b).len() as int)
            =~= written_ids(a) + written_ids(b));
    }
}

proof fn lemma_writable_nodes_add(t: Tree, a: Seq<usize>, b: Seq<usize>)
    ensures
        writable_nodes(t, a + b) == writable_nodes(t, a) + writable_nodes(t, b),
    decreases b.len(),
{
    if b.len() == 0 {
        assert(a + b =~= a);
        assert(writable_nodes(t, a) + writable_nodes(t, b) =~= writable_nodes(t, a));
    } else {
        lemma_writable_nodes_add(t, a, b.drop_last());
        assert((a + b).drop_last() =~= a + b.drop_last());
        assert((a + b).last() == b.last());
        assert(writable_nodes(t, a) + writable_nodes(t, b.drop_last()) + writable_nodes(t, b).subrange(writable_nodes(t, b.drop_last()).len() as int, writable_nodes(t, b).len() as int)
            =~= writable_nodes(t, a) + writable_nodes(t, b));
    }
}

proof fn lemma_node_written(t: Tree, x: usize, f: nat)
    requires
        t.wf(),
        only_containers_have_children(t),
        x < t.len(),
    ensures
        written_ids(ser_node(t, x, f)) == writable_nodes(t, preorder(t, x, f)),
    decreases f, 0int,
{
    let id = NodeId { value: x };
    let one = seq![x];
    assert(one.drop_last() =~= Seq::<usize>::empty());
    assert(one.last() == x);
    assert(written_ids(Seq::<SerializeStep>::empty()) == Seq::<usize>::empty());
    assert(writable_nodes(t, Seq::<usize>::empty()) == Seq::<usize>::empty());
    let cs = t.children(x as int);
    if f > 0 {
        let g = (f - 1) as nat;
        crate::normalize::lemma_kids(t, x as int);
        lemma_forest_written(t, cs, cs.len() as int, g);
        lemma_writable_nodes_add(t, one, forest(t, cs, cs.len() as int, g));
    }
    match t.data(x as int) {
        NodeData::Element(_) => {
            let st = seq![SerializeStep::StartElem(id)];
            let en = seq![SerializeStep::EndElem(id)];
            assert(st.drop_last() =~= Seq::<SerializeStep>::empty());
            assert(en.drop_last() =~= Seq::<SerializeStep>::empty());
            assert(st.last() == SerializeStep::StartElem(id));
            assert(en.last() == SerializeStep::EndElem(id));
            assert(written_ids(st) =~= one);
            assert(written_ids(en) =~= Seq::<usize>::empty());
            assert(writable_nodes(t, one) =~= one);
            if f == 0 {
                assert(ser_node(t, x, f) =~= st + en);
                lemma_written_ids_add(st, en);
                assert(written_ids(st + en) =~= one);
            } else {
                let sf = ser_forest(t, cs, cs.len() as int, (f - 1) as nat);
                lemma_written_ids_add(st, sf);
                lemma_written_ids_add(st + sf, en);
                assert(written_ids(st + sf + en) =~= one + written_ids(sf));
            }
        },
        NodeData::Document | NodeData::Fragment => {
            assert(writable_nodes(t, one) =~= Seq::<usize>::empty());
            if f > 0 {
                let w = writable_nodes(t, forest(t, cs, cs.len() as int, (f - 1) as nat));
                assert(Seq::<usize>::empty() + w =~= w);
            }
        },
        _ => {
            if f > 0 {
                assert(cs.len() == 0);
                assert(forest(t, cs, 0, (f - 1) as nat) == Seq::<usize>::empty());
                assert(preorder(t, x, f) =~= one);
            }
            let st = ser_node(t, x, f);
            assert(st.len() == 1);
            assert(st.drop_last() =~= Seq::<SerializeStep>::empty());
            assert(written_ids(st) =~= one);
            assert(writable_nodes(t, one) =~= one);
        },
    }
}

proof fn lemma_forest_written(t: Tree, cs: Seq<usize>, k: int, f: nat)
    requires
        t.wf(),
        only_containers_have_children(t),
        k <= cs.len(),
        forall|j: int| 0 <= j < cs.len() ==> #[trigger] cs[j] < t.len(),
    ensures
        written_ids(ser_forest(t, cs, k, f)) == writable_nodes(t, forest(t, cs, k, f)),
    decreases f, 1int, k,
{
    if k > 0 {
        lemma_forest_written(t, cs, k - 1, f);
        lemma_node_written(t, cs[k - 1], f);
        lemma_written_ids_add(ser_forest(t, cs, k - 1, f), ser_node(t, cs[k - 1], f));
        lemma_writable_nodes_add(t, forest(t, cs, k - 1, f), preorder(t, cs[k - 1], f));
    }
}

/// Writing a node out names, in document order, each node of its subtree other than
/// documents and fragments: a doctype, a text, a comment or a processing instruction by
/// the step that writes it, and an element by the step that opens it (in a tree where
/// only elements, documents and fragments have children).
pub proof fn law_serialize_writes_each_node(t: Tree, x: usize)
    requires
        t.wf(),
        only_containers_have_children(t),
        x < t.len(),
    ensures
        written_ids(serialized(t, x as int, TraversalScope::IncludeNode)) == writable_nodes(t, subtree(t, x)),
{
    lemma_node_written(t, x, t.len());
}

/// `:contains` looks at the node's whole text, across text nodes: when one text node
/// of the subtree ends with `a` and the next node of the subtree, in document order, is
/// a text node that starts with `b`, the node matches `:contains` of `a` followed by `b`.
pub proof fn law_contains_spans_text_nodes(t: Tree, x: usize, j: int, a: Seq<char>, b: Seq<char>, s: String)
    requires
        0 <= j,
        j + 1 < subtree(t, x).len(),
        ends_with(text_contents(t.data(subtree(t, x)[j] as int)), a),
        starts_with(text_contents(t.data(subtree(t, x)[j + 1] as int)), b),
        s@ == a + b,
    ensures
        pseudo_matches(t, x, NonTSPseudoClass::Contains(s)),
{
    let ids = subtree(t, x);
    let p = ids.take(j);
    let m = ids.subrange(j, j + 2);
    let q = ids.skip(j + 2);
    assert(ids =~= p + m + q);
    lemma_texts_append(t, p + m, q);
    lemma_texts_append(t, p, m);
    let c1 = text_contents(t.data(ids[j] as int));
    let c2 = text_contents(t.data(ids[j + 1] as int));
    assert(m.drop_last() =~= seq![ids[j]]);
    assert(seq![ids[j]].drop_last() =~= Seq::<usize>::empty());
    assert(texts(t, Seq::<usize>::empty()) == Seq::<char>::empty());
    assert(texts(t, seq![ids[j]]) =~= c1);
    assert(texts(t, m) =~= c1 + c2);
    let all = texts(t, ids);
    let tp = texts(t, p);
    assert(all =~= tp + c1 + c2 + texts(t, q));
    let i = tp.len() + c1.len() - a.len();
    assert(all.subrange(i, i + s@.len()) =~= a + b) by {
        assert(c1.skip(c1.len() - a.len()) == a);
        assert(c2.take(b.len() as int) == b);
        assert forall|k: int| 0 <= k < s@.len() implies #[trigger] all.subrange(i, i + s@.len())[k] == (a + b)[k] by {
            if k < a.len() {
                assert(all[i + k] == c1[c1.len() - a.len() + k]);
                assert(a[k] == c1.skip(c1.len() - a.len())[k]);
            } else {
                assert(all[i + k] == c2[k - a.len()]);
                assert(b[k - a.len()] == c2.take(b.len() as int)[k - a.len()]);
            }
        }
    }
    assert(occurs_at(all, s@, i));
}

/// Closing a block element (`article`, `blockquote`, `section`, `div`, `p`, `pre`,
/// `h1` to `h6`, `ul`, `ol`, `dl` or `table`) ends a paragraph: the formatted text after
/// it is empty or ends with two line feeds.
pub proof fn law_block_elements_end_a_paragraph(t: Tree, x: usize, text: Seq<char>, fuel: nat)
    requires
        t.data(x as int) matches NodeData::Element(e) && {
            let l = e.name.local@;
            ||| l == "article"@ ||| l == "blockquote"@ ||| l == "section"@ ||| l == "div"@
            ||| l == "p"@ ||| l == "pre"@ ||| l == "h1"@ ||| l == "h2"@ ||| l == "h3"@
            ||| l == "h4"@ ||| l == "h5"@ ||| l == "h6"@ ||| l == "ul"@ ||| l == "ol"@
            ||| l == "dl"@ ||| l == "table"@
        },
    ensures
        fmt_node(t, x, text, fuel).len() == 0 || ends_with(fmt_node(t, x, text, fuel), seq!['\n', '\n']),
{
    let e = t.data(x as int)->Element_0;
    let l = e.name.local@;
    assert(requires_linebreak(l));
    let r = fmt_node(t, x, text, fuel);
    let t1 = if !(text.len() == 0 || ends_with(text, two_newlines())) { text.push('\n') } else { text };
    let t2 = if l == "pre"@ {
        t1 + texts(t, subtree(t, x))
    } else if fuel == 0 {
        t1
    } else {
        let cs = t.children(x as int);
        fmt_forest(t, cs, cs.len() as int, t1, (fuel - 1) as nat)
    };
    assert(r == adjusted(t2, l));
    if !(t2.len() == 0 || ends_with(t2, two_newlines())) {
        let u = trim_right_spaces(t2) + two_newlines();
        assert(u.skip(u.len() - 2) =~= seq!['\n', '\n']);
    }
}

/// Closing a table cell (`td` or `th`) leaves the formatted text empty or ending with a
/// space or a line feed, so that the next cell's text stays apart from it.
pub proof fn law_cells_stay_apart(t: Tree, x: usize, text: Seq<char>, fuel: nat)
    requires
        t.data(x as int) matches NodeData::Element(e) && (e.name.local@ == "td"@ || e.name.local@ == "th"@),
    ensures
        fmt_node(t, x, text, fuel).len() == 0 || fmt_node(t, x, text, fuel).last() == ' '
            || fmt_node(t, x, text, fuel).last() == '\n',
{
    reveal_strlit("td");
    reveal_strlit("th");
    reveal_strlit("pre");
    reveal_strlit("br");
    reveal_strlit("hr");
    reveal_strlit("li");
    reveal_strlit("tr");
    let e = t.data(x as int)->Element_0;
    let l = e.name.local@;
    assert(l.len() == 2 && l[0] == 't' && (l[1] == 'd' || l[1] == 'h'));
    assert(!requires_linebreak(l)) by {
        reveal_strlit("article");
        reveal_strlit("blockquote");
        reveal_strlit("section");
        reveal_strlit("div");
        reveal_strlit("p");
        reveal_strlit("h1");
        reveal_strlit("h2");
        reveal_strlit("h3");
        reveal_strlit("h4");
        reveal_strlit("h5");
        reveal_strlit("h6");
        reveal_strlit("ul");
        reveal_strlit("ol");
        reveal_strlit("dl");
        reveal_strlit("table");
    }
    assert(l != "pre"@);
    let r = fmt_node(t, x, text, fuel);
    let t2 = if fuel == 0 {
        text
    } else {
        let cs = t.children(x as int);
        fmt_forest(t, cs, cs.len() as int, text, (fuel - 1) as nat)
    };
    assert(r == adjusted(t2, l));
    if t2.len() > 0 && ends_with(t2, two_newlines()) {
        assert(t2.last() == t2.skip(t2.len() - 2)[1]);
    }
}

/// The attribute tests other than `~=`, on an attribute value `e` (an empty value never
/// passes): `=` is equality, `|=` equality or `v` followed by a hyphen, `^=` a start,
/// `$=` an end and `*=` an occurrence anywhere.
pub proof fn law_attr_operators(v: Seq<char>, e: Seq<char>)
    ensures
        attr_matches(AttrOperator::Equals, v, e) <==> e.len() > 0 && e == v,
        attr_matches(AttrOperator::DashMatch, v, e) <==> e.len() > 0 && (e == v
            || (v.len() < e.len() && e.subrange(0, v.len() as int) == v && e[v.len() as int] == '-')),
        attr_matches(AttrOperator::Prefix, v, e) <==> e.len() > 0 && v.len() <= e.len() && e.subrange(0, v.len() as int) == v,
        attr_matches(AttrOperator::Suffix, v, e) <==> e.len() > 0 && v.len() <= e.len()
            && e.subrange(e.len() - v.len(), e.len() as int) == v,
        attr_matches(AttrOperator::Substring, v, e) <==> e.len() > 0 && exists|i: int|
            0 <= i && i + v.len() <= e.len() && #[trigger] e.subrange(i, i + v.len()) == v,
{
    if v.len() <= e.len() {
        assert(e.take(v.len() as int) =~= e.subrange(0, v.len() as int));
        assert(e.skip(e.len() - v.len()) =~= e.subrange(e.len() - v.len(), e.len() as int));
    }
    if contains_seq(e, v) {
        let i = choose|i: int| occurs_at(e, v, i);
        assert(e.subrange(i, i + v.len()) == v);
    }
    if exists|i: int| 0 <= i && i + v.len() <= e.len() && #[trigger] e.subrange(i, i + v.len()) == v {
        let i = choose|i: int| 0 <= i && i + v.len() <= e.len() && #[trigger] e.subrange(i, i + v.len()) == v;
        assert(occurs_at(e, v, i));
    }
}

/// A text node of the subtree that holds `s` makes the node match `:contains(s)` too:
/// what `:has-text` finds in one text node, `:contains` finds in the whole text.
pub proof fn law_has_text_implies_contains(t: Tree, x: usize, s: String)
    requires
        pseudo_matches(t, x, NonTSPseudoClass::HasText(s)),
    ensures
        pseudo_matches(t, x, NonTSPseudoClass::Contains(s)),
{
    let ids = subtree(t, x);
    let j = choose|j: int| 0 <= j < ids.len() && #[trigger] text_node_has(t, ids[j], s@);
    let p = ids.take(j);
    let m = seq![ids[j]];
    let q = ids.skip(j + 1);
    assert(ids =~= p + m + q);
    lemma_texts_append(t, p + m, q);
    lemma_texts_append(t, p, m);
    assert(m.drop_last() =~= Seq::<usize>::empty());
    let c = text_contents(t.data(ids[j] as int));
    assert(m.last() == ids[j]);
    assert(texts(t, Seq::<usize>::empty()) == Seq::<char>::empty());
    assert(texts(t, m) == texts(t, m.drop_last()) + text_contents(t.data(m.last() as int)));
    assert(texts(t, m) =~= c);
    let all = texts(t, ids);
    let tp = texts(t, p);
    assert(all =~= tp + c + texts(t, q));
    let i = choose|i: int| occurs_at(c, s@, i);
    assert(all.subrange(tp.len() + i, tp.len() + i + s@.len()) =~= c.subrange(i, i + s@.len()));
    assert(occurs_at(all, s@, tp.len() + i));
}

/// An element has class `c` (a non-empty name) exactly when its class attribute holds
/// `c` as one of its pieces between whitespace: with whitespace or an end of the value
/// on each side, and no whitespace in `c` itself.
pub proof fn law_class_is_a_whole_piece(el: Element, c: Seq<char>, v: Seq<char>)
    requires
        c.len() > 0,
        attr_value(el.attrs@, "class"@) == Some(v),
    ensures
        elem_has_class(el, c) <==> {
            &&& forall|k: int| 0 <= k < c.len() ==> !is_ws(#[trigger] c[k])
            &&& exists|i: int| {
                &&& 0 <= i
                &&& i + c.len() <= v.len()
                &&& #[trigger] v.subrange(i, i + c.len()) == c
                &&& (i == 0 || is_ws(v[i - 1]))
                &&& (i + c.len() == v.len() || is_ws(v[i + c.len()]))
            }
        },
{
    reveal_strlit("class");
    assert(lit_class() =~= "class"@);
    if elem_has_class(el, c) {
        let i = choose|i: int| is_word_at(v, c, i, true);
        assert(v.subrange(i, i + c.len()) == c);
    }
    if (forall|k: int| 0 <= k < c.len() ==> !is_ws(#[trigger] c[k])) && exists|i: int| {
        &&& 0 <= i
        &&& i + c.len() <= v.len()
        &&& #[trigger] v.subrange(i, i + c.len()) == c
        &&& (i == 0 || is_ws(v[i - 1]))
        &&& (i + c.len() == v.len() || is_ws(v[i + c.len()]))
    } {
        let i = choose|i: int| {
            &&& 0 <= i
            &&& i + c.len() <= v.len()
            &&& #[trigger] v.subrange(i, i + c.len()) == c
            &&& (i == 0 || is_ws(v[i - 1]))
            &&& (i + c.len() == v.len() || is_ws(v[i + c.len()]))
        };
        assert(is_word_at(v, c, i, true));
    }
}

/// Writing an element out opens it first and closes it last.
pub proof fn law_element_opens_and_closes(t: Tree, x: usize)
    requires
        x < t.len(),
        t.data(x as int) is Element,
    ensures
        serialized(t, x as int, TraversalScope::IncludeNode).len() >= 2,
        serialized(t, x as int, TraversalScope::IncludeNode)[0] == SerializeStep::StartElem(NodeId { value: x }),
        serialized(t, x as int, TraversalScope::IncludeNode).last() == SerializeStep::EndElem(NodeId { value: x }),
{
}

/// An image with an address is written as a Markdown image: after what was written
/// before it (a trailing `!` escaped), `![`, then, after its alternative text, `](` and
/// the address made a destination, and a closing `)` at the end.
pub proof fn law_image_written_with_address(t: Tree, s: Seq<char>, x: usize, e: Element, o: FormatOpts,
    skip: Seq<Seq<char>>, f: nat, src: Seq<char>)
    requires
        e.name.local@ == "img"@,
        f >= 1,
        img_src(e.attrs@) == Some(src),
    ensures
        ({
            let r = md_special(t, s, x, e, o, skip, f);
            let b = bang_escaped(s);
            let d = seq![']', '('] + link_destination(src);
            &&& r.len() > b.len() + 1
            &&& r.subrange(0, b.len() as int) == b
            &&& r[b.len() as int] == '!'
            &&& r[b.len() + 1int] == '['
            &&& r.last() == ')'
            &&& exists|i: int| i > b.len() + 1 && #[trigger] occurs_at(r, d, i)
        }),
{
    reveal_strlit("img");
    reveal_strlit("ul");
    reveal_strlit("ol");
    reveal_strlit("a");
    reveal_strlit("![");
    assert(e.name.local@ != "ul"@ && e.name.local@ != "ol"@ && e.name.local@ != "a"@) by {
        assert(e.name.local@.len() == 3);
    }
    let r = md_special(t, s, x, e, o, skip, f);
    assert(r == img_written(s, e));
    let b = bang_escaped(s);
    let s1 = b + "!["@ + img_alt_part(e);
    let d = seq![']', '('] + link_destination(src);
    let s3 = s1 + d;
    assert(b + "!["@ + img_alt_part(e) + seq![']', '('] + link_destination(src) =~= s3);
    let w = with_title(s3, attr_value(e.attrs@, "title"@));
    assert(r == w + seq![')']);
    lemma_with_title_keeps(s3, attr_value(e.attrs@, "title"@));
    assert(w.subrange(0, s3.len() as int) == s3);
    assert(r.subrange(0, b.len() as int) =~= s3.subrange(0, b.len() as int));
    assert(s3.subrange(0, b.len() as int) =~= b);
    assert(r[b.len() as int] == s3[b.len() as int]);
    assert(r[b.len() + 1int] == s3[b.len() + 1int]);
    assert(r.subrange(s1.len() as int, (s1.len() + d.len()) as int) =~= s3.subrange(s1.len() as int, s3.len() as int));
    assert(s3.subrange(s1.len() as int, s3.len() as int) =~= d);
    assert(occurs_at(r, d, s1.len() as int));
}

/// `s` + `p` ends with `p`.
proof fn lemma_ends_with_appended(s: Seq<char>, p: Seq<char>)
    ensures
        ends_with(s + p, p),
{
    assert((s + p).skip(s.len() as int) =~= p);
}

proof fn lemma_marker_opened(st: MdState, o: FormatOpts, l: Seq<char>, p: Seq<char>)
    requires
        md_block_name(l),
        !emph_name(l),
        md_prefix_of(l) == Some(p),
    ensures
        ends_with(md_opened(st, l, o).0, p),
{
    lemma_ends_with_appended(block_break(st.0, o), p);
}

/// A name of two characters, `h` and a digit, is no emphasis.
proof fn lemma_heading_not_emph(l: Seq<char>)
    requires
        l.len() == 2,
        l[0] == 'h',
    ensures
        !emph_name(l),
{
    reveal_strlit("strong");
    reveal_strlit("b");
    reveal_strlit("em");
    reveal_strlit("i");
    assert(l[0] != "em"@[0]);
    assert(l.len() != "strong"@.len() && l.len() != "b"@.len() && l.len() != "i"@.len());
}

/// Opening a heading writes its marker last: as many `#` as its level, then a space.
pub proof fn law_heading_markers(st: MdState, o: FormatOpts)
    ensures
        ends_with(md_opened(st, "h1"@, o).0, "# "@),
        ends_with(md_opened(st, "h2"@, o).0, "## "@),
        ends_with(md_opened(st, "h3"@, o).0, "### "@),
        ends_with(md_opened(st, "h4"@, o).0, "#### "@),
        ends_with(md_opened(st, "h5"@, o).0, "##### "@),
        ends_with(md_opened(st, "h6"@, o).0, "###### "@),
{
    reveal_strlit("h1");
    reveal_strlit("h2");
    reveal_strlit("h3");
    reveal_strlit("h4");
    reveal_strlit("h5");
    reveal_strlit("h6");
    let h1 = "h1"@;
    let h2 = "h2"@;
    let h3 = "h3"@;
    let h4 = "h4"@;
    let h5 = "h5"@;
    let h6 = "h6"@;
    assert(h1[1] == '1' && h2[1] == '2' && h3[1] == '3' && h4[1] == '4' && h5[1] == '5' && h6[1] == '6');
    assert(h2 != h1);
    assert(h3 != h1 && h3 != h2);
    assert(h4 != h1 && h4 != h2 && h4 != h3);
    assert(h5 != h1 && h5 != h2 && h5 != h3 && h5 != h4);
    assert(h6 != h1 && h6 != h2 && h6 != h3 && h6 != h4 && h6 != h5);
    lemma_heading_not_emph(h1);
    lemma_heading_not_emph(h2);
    lemma_heading_not_emph(h3);
    lemma_heading_not_emph(h4);
    lemma_heading_not_emph(h5);
    lemma_heading_not_emph(h6);
    lemma_marker_opened(st, o, h1, "# "@);
    lemma_marker_opened(st, o, h2, "## "@);
    lemma_marker_opened(st, o, h3, "### "@);
    lemma_marker_opened(st, o, h4, "#### "@);
    lemma_marker_opened(st, o, h5, "##### "@);
    lemma_marker_opened(st, o, h6, "###### "@);
}

/// Closing a `br`, `li` or `tr` element ends the Markdown line: the text then ends with
/// a line break.
pub proof fn law_md_line_elements_end_a_line(st: MdState, l: Seq<char>, o: FormatOpts)
    requires
        l == "br"@ || l == "li"@ || l == "tr"@,
    ensures
        ends_with(md_closed(st, l, o).0, lb_of(o.br)),
{
    reveal_strlit("br");
    reveal_strlit("li");
    reveal_strlit("tr");
    reveal_strlit("strong");
    reveal_strlit("b");
    reveal_strlit("em");
    reveal_strlit("i");
    assert(l.len() == 2 && (l[1] == 'r' || l[1] == 'i'));
    assert(md_suffix_of(l) is None);
    assert(!md_block_name(l)) by {
        reveal_strlit("article");
        reveal_strlit("blockquote");
        reveal_strlit("section");
        reveal_strlit("div");
        reveal_strlit("p");
        reveal_strlit("h1");
        reveal_strlit("h2");
        reveal_strlit("h3");
        reveal_strlit("h4");
        reveal_strlit("h5");
        reveal_strlit("h6");
        reveal_strlit("ul");
        reveal_strlit("ol");
        reveal_strlit("dl");
        reveal_strlit("table");
        reveal_strlit("hr");
        reveal_strlit("figcaption");
        reveal_strlit("dt");
        reveal_strlit("dd");
        assert(l[0] == 'b' || l[0] == 'l' || l[0] == 't');
    }
    let lb = lb_of(o.br);
    let t1 = st.0;
    if ends_with(t1, lb + lb) {
        assert(t1.skip(t1.len() - lb.len()) =~= (lb + lb).skip(lb.len() as int)) by {
            assert(t1.skip(t1.len() - (lb + lb).len()) == lb + lb);
            assert forall|k: int| 0 <= k < lb.len() implies #[trigger] t1.skip(t1.len() - lb.len())[k] == (lb + lb).skip(lb.len() as int)[k] by {
                assert(t1.skip(t1.len() - lb.len())[k] == t1[t1.len() - lb.len() + k]);
                assert(t1.skip(t1.len() - (lb + lb).len())[lb.len() + k] == t1[t1.len() - lb.len() + k]);
            }
        }
        assert((lb + lb).skip(lb.len() as int) =~= lb);
    } else {
        lemma_ends_with_appended(trim_right_spaces(t1) + seq![' ', ' '], lb);
    }
}

} // verus!
