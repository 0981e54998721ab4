//! Matching minimal selectors against elements, up the ancestors and down the subtrees.
use vstd::prelude::*;
use crate::node::{NodeId, NodeData, TreeNode, Element};
use crate::tree::Tree;
use crate::element::{attr_value, attr_index, lit_id, lit_class};
use crate::text::{chars_of, is_ascii_ws, is_ascii_whitespace, starts_with, ends_with, contains_seq, has_word};
use crate::noderef::{NodeRef, ref_ids};
use crate::tree::{node_ok, member_ok};
use crate::query::{ids_of, first_element_from};
use crate::subtree::child_ids;
use crate::ops::TreeNodeOps;
use crate::minisel::{parse_selector_list, SelectorError, Parse, outcome, list_from, AttrOperator, AttrValue, Attribute, Combinator, MiniSelector, MiniSelectorList, AttrModel, SelModel, sel_models, attr_models, str_views};

verus! {

/// Splitting `e` at ASCII whitespace gives an empty piece: `e` is empty, starts or
/// ends with whitespace, or has two whitespace characters in a row.
pub open spec fn has_empty_piece(e: Seq<char>) -> bool {
    ||| e.len() == 0
    ||| is_ascii_ws(e[0])
    ||| is_ascii_ws(e.last())
    ||| exists|i: int| 0 <= i < e.len() - 1 && #[trigger] is_ascii_ws(e[i]) && is_ascii_ws(e[i + 1])
}

/// The attribute value `e` passes the test `op` with value `v`. An empty value never does.
pub open spec fn attr_matches(op: AttrOperator, v: Seq<char>, e: Seq<char>) -> bool {
    &&& e.len() > 0
    &&& match op {
        AttrOperator::Equals => e == v,
        AttrOperator::Includes => if v.len() == 0 { has_empty_piece(e) } else { has_word(e, v, false) },
        AttrOperator::DashMatch => e == v || (starts_with(e, v) && e.len() > v.len() && e[v.len() as int] == '-'),
        AttrOperator::Prefix => starts_with(e, v),
        AttrOperator::Suffix => ends_with(e, v),
        AttrOperator::Substring => contains_seq(e, v),
    }
}

fn chars_have_empty_piece(e: &Vec<char>) -> (r: bool)
    ensures
        r == has_empty_piece(e@),
{
    let n = e.len();
    if n == 0 || is_ascii_whitespace(e[0]) || is_ascii_whitespace(e[n - 1]) {
        return true;
    }
    let mut i: usize = 0;
    while i + 1 < n
        invariant
            n == e.len(),
            n > 0,
            i < n,
            forall|j: int| 0 <= j < i ==> !(#[trigger] is_ascii_ws(e@[j]) && is_ascii_ws(e@[j + 1])),
        decreases n - i,
    {
        if is_ascii_whitespace(e[i]) && is_ascii_whitespace(e[i + 1]) {
            return true;
        }
        i = i + 1;
    }
    false
}

impl AttrValue {
    /// Whether an element's attribute value passes this test.
    pub fn is_match(&self, elem_value: &str) -> (r: bool)
        ensures
            r == attr_matches(self.op, self.value@, elem_value@),
    {
        let e = chars_of(elem_value);
        if e.len() == 0 {
            return false;
        }
        let s = chars_of(self.value.as_str());
        match self.op {
            AttrOperator::Equals => crate::text::chars_eq(e.as_slice(), s.as_slice()),
            AttrOperator::Includes => if s.len() == 0 {
                chars_have_empty_piece(&e)
            } else {
                crate::text::contains_word(e.as_slice(), s.as_slice(), false)
            },
            AttrOperator::DashMatch => {
                crate::text::chars_eq(e.as_slice(), s.as_slice()) || (crate::text::chars_starts_with(
                    e.as_slice(),
                    s.as_slice(),
                ) && e.len() > s.len() && e[s.len()] == '-')
            },
            AttrOperator::Prefix => crate::text::chars_starts_with(e.as_slice(), s.as_slice()),
            AttrOperator::Suffix => crate::text::chars_ends_with(e.as_slice(), s.as_slice()),
            AttrOperator::Substring => crate::text::chars_contains(e.as_slice(), s.as_slice()),
        }
    }
}

/// Whether `target_class` is one of the whitespace-separated words of `classes`.
pub fn contains_class(classes: &str, target_class: &str) -> (r: bool)
    ensures
        r == has_word(classes@, target_class@, true),
{
    let c = chars_of(classes);
    let t = chars_of(target_class);
    crate::text::contains_word(c.as_slice(), t.as_slice(), true)
}

/// The element has the class `c`.
pub open spec fn elem_has_class(el: Element, c: Seq<char>) -> bool {
    attr_value(el.attrs@, lit_class()) matches Some(v) && has_word(v, c, true)
}

/// The element passes the attribute test `a`.
pub open spec fn elem_passes(el: Element, a: AttrModel) -> bool {
    match a.value {
        Some((op, v)) => exists|j: int| 0 <= j < el.attrs@.len() && (#[trigger] el.attrs@[j]).name.local@ == a.key && attr_matches(op, v, el.attrs@[j].value@),
        None => attr_index(el.attrs@, a.key).is_some(),
    }
}

/// The element has every class of `cs`, if there are any to test.
pub open spec fn has_classes(el: Element, classes: Option<Seq<Seq<char>>>) -> bool {
    match classes {
        Some(cs) => forall|k: int| 0 <= k < cs.len() ==> #[trigger] elem_has_class(el, cs[k]),
        None => true,
    }
}

/// The element passes every attribute test of `ats`, if there are any.
pub open spec fn passes_all(el: Element, tests: Option<Seq<AttrModel>>) -> bool {
    match tests {
        Some(ats) => forall|k: int| 0 <= k < ats.len() ==> #[trigger] elem_passes(el, ats[k]),
        None => true,
    }
}

/// The element passes every test of the selector.
pub open spec fn elem_matches(m: SelModel, el: Element) -> bool {
    &&& (m.name matches Some(n) ==> el.name.local@ == n)
    &&& (m.id matches Some(i) ==> attr_value(el.attrs@, lit_id()) == Some(i))
    &&& has_classes(el, m.classes)
    &&& passes_all(el, m.attrs)
}

/// The node is an element that passes every test of the selector.
pub open spec fn node_matches(m: SelModel, t: TreeNode) -> bool {
    match t.data {
        NodeData::Element(el) => elem_matches(m, el),
        _ => false,
    }
}

impl MiniSelector {
    fn match_name(&self, el: &Element) -> (r: bool)
        ensures
            r == (self.model().name matches Some(n) ==> el.name.local@ == n),
    {
        match &self.name {
            Some(n) => crate::text::str_eq(el.name.local.as_str(), n.as_str()),
            None => true,
        }
    }

    fn match_id_attr(&self, el: &Element) -> (r: bool)
        ensures
            r == (self.model().id matches Some(i) ==> attr_value(el.attrs@, lit_id()) == Some(i)),
    {
        if let Some(id) = &self.id {
            if let Some(id_attr) = el.id() {
                return crate::text::str_eq(id_attr.as_str(), id.as_str());
            } else {
                return false;
            }
        }
        true
    }

    fn match_classes(&self, el: &Element) -> (r: bool)
        ensures
            r == has_classes(*el, self.model().classes),
    {
        let classes = match &self.classes {
            None => return true,
            Some(c) => c,
        };
        let ghost cs = str_views(classes@);
        proof {
            assert(self.model().classes == Some(cs));
        }
        let mut i: usize = 0;
        while i < classes.len()
            invariant
                i <= classes.len(),
                cs == str_views(classes@),
                self.model().classes == Some(cs),
                forall|k: int| 0 <= k < i ==> elem_has_class(*el, #[trigger] cs[k]),
            decreases classes.len() - i,
        {
            if !el.has_class(classes[i].as_str()) {
                proof {
                    assert(cs[i as int] == classes@[i as int]@);
                    assert(!elem_has_class(*el, cs[i as int]));
                    assert(0 <= i < cs.len());
                    let oc = Some(cs);
                    assert(oc matches Some(x) && x == cs);
                    assert(has_classes(*el, oc) ==> elem_has_class(*el, cs[i as int]));
                }
                return false;
            }
            i = i + 1;
        }
        true
    }

    fn match_attr(el: &Element, attr: &Attribute) -> (r: bool)
        ensures
            r == elem_passes(*el, attr.model()),
    {
        match &attr.value {
            Some(av) => {
                let mut j: usize = 0;
                while j < el.attrs.len()
                    invariant
                        j <= el.attrs.len(),
                        attr.value == Some(*av),
                        forall|k: int| 0 <= k < j ==> !((#[trigger] el.attrs@[k]).name.local@ == attr.key@ && attr_matches(av.op, av.value@, el.attrs@[k].value@)),
                    decreases el.attrs.len() - j,
                {
                    if crate::text::str_eq(el.attrs[j].name.local.as_str(), attr.key.as_str()) && av.is_match(el.attrs[j].value.as_str()) {
                        return true;
                    }
                    j = j + 1;
                }
                false
            },
            None => el.has_attr(attr.key.as_str()),
        }
    }

    fn match_attrs(&self, el: &Element) -> (r: bool)
        ensures
            r == passes_all(*el, self.model().attrs),
    {
        let attrs = match &self.attrs {
            None => return true,
            Some(a) => a,
        };
        let ghost ats = attr_models(attrs@);
        proof {
            assert(self.model().attrs == Some(ats));
        }
        let mut i: usize = 0;
        while i < attrs.len()
            invariant
                i <= attrs.len(),
                ats == attr_models(attrs@),
                self.model().attrs == Some(ats),
                forall|k: int| 0 <= k < i ==> elem_passes(*el, #[trigger] ats[k]),
            decreases attrs.len() - i,
        {
            if !Self::match_attr(el, &attrs[i]) {
                proof {
                    assert(ats[i as int] == attrs@[i as int].model());
                    assert(!elem_passes(*el, ats[i as int]));
                    assert(0 <= i < ats.len());
                    let oa = Some(ats);
                    assert(oa matches Some(x) && x == ats);
                    assert(passes_all(*el, oa) ==> elem_passes(*el, ats[i as int]));
                }
                return false;
            }
            i = i + 1;
        }
        true
    }

    /// Whether a tree node is an element that passes every test of the selector.
    pub fn match_tree_node(&self, t: &TreeNode) -> (r: bool)
        ensures
            r == node_matches(self.model(), *t),
    {
        match &t.data {
            NodeData::Element(el) => self.match_name(el) && self.match_id_attr(el) && self.match_classes(el) && self.match_attrs(el),
            _ => false,
        }
    }
}

// ---------------------------------------------------------------------------
// Matching a list of selectors up the ancestors
// ---------------------------------------------------------------------------

/// Where the search for one selector ends: the whole match fails, or it goes on
/// from a node (or from nowhere) with a flag that says whether the last node tried matched.
pub enum Seek {
    Stop,
    Go(Option<usize>, bool),
}

/// The search for selector `m` from `cur` upwards: the first node that matches
/// passes the search on to its parent. The node the whole match started from, a
/// node that fails a `>` selector, or no node left to try, stops it.
pub open spec fn seek(t: Tree, m: SelModel, start: usize, cur: Option<usize>, matched: bool) -> Seek
    decreases (match cur { Some(n) => t.depth@[n as int] + 1, None => 0 }),
{
    match cur {
        None => Seek::Stop,
        Some(n) => if node_matches(m, t.node(n as int)) {
            Seek::Go(t.parent(n as int), true)
        } else if n == start || m.combinator == Combinator::Child {
            Seek::Stop
        } else {
            match t.parent(n as int) {
                Some(q) => if t.depth@[q as int] < t.depth@[n as int] {
                    seek(t, m, start, Some(q), false)
                } else {
                    Seek::Stop
                },
                None => Seek::Stop,
            }
        },
    }
}

/// The selectors `ms[..k]`, last first, searched for up from `cur`.
pub open spec fn list_walk(t: Tree, ms: Seq<SelModel>, k: int, start: usize, cur: Option<usize>, matched: bool) -> bool
    decreases k,
{
    if k <= 0 {
        matched
    } else {
        match seek(t, ms[k - 1], start, cur, matched) {
            Seek::Stop => false,
            Seek::Go(c, b) => list_walk(t, ms, k - 1, start, c, b),
        }
    }
}

impl MiniSelector {
    /// Whether the node is an element that passes every test of the selector.
    pub fn match_node(&self, node_ref: &NodeRef) -> (r: bool)
        requires
            node_ref.tree.valid(node_ref.id.value as int),
        ensures
            r == node_matches(self.model(), node_ref.tree.node(node_ref.id.value as int)),
    {
        self.match_tree_node(&node_ref.tree.nodes[node_ref.id.value])
    }
}

impl MiniSelectorList {
    /// Whether the node matches the last selector of the list, and its ancestors the
    /// ones before, each as its combinator asks.
    pub fn match_node(&self, node_ref: &NodeRef) -> (r: bool)
        requires
            node_ref.tree.wf(),
            node_ref.tree.valid(node_ref.id.value as int),
        ensures
            r == list_walk(*node_ref.tree, sel_models(self.0@), self.0@.len() as int, node_ref.id.value, Some(node_ref.id.value), true),
    {
        let t = node_ref.tree;
        let start = node_ref.id.value;
        let ghost ms = sel_models(self.0@);
        let ghost goal = list_walk(*t, ms, self.0@.len() as int, start, Some(start), true);
        let mut cur: Option<usize> = Some(start);
        let mut matched = true;
        let mut k = self.0.len();
        while k > 0
            invariant
                t.wf(),
                k <= self.0@.len(),
                ms == sel_models(self.0@),
                goal == list_walk(*t, ms, k as int, start, cur, matched),
                goal == list_walk(*node_ref.tree, sel_models(self.0@), self.0@.len() as int, node_ref.id.value, Some(node_ref.id.value), true),
                t == node_ref.tree,
                start == node_ref.id.value,
                cur matches Some(c) ==> c < t.len(),
            decreases k,
        {
            let sel = &self.0[k - 1];
            let ghost m = sel.model();
            let ghost target = seek(*t, m, start, cur, matched);
            let ghost cur0 = cur;
            let ghost matched0 = matched;
            proof {
                assert(ms[k - 1] == m);
            }
            loop
                invariant_except_break
                    target == seek(*t, m, start, cur, matched),
                invariant
                    t.wf(),
                    0 < k <= self.0@.len(),
                    ms == sel_models(self.0@),
                    ms[k - 1] == m,
                    goal == list_walk(*t, ms, k as int, start, cur0, matched0),
                    goal == list_walk(*node_ref.tree, sel_models(self.0@), self.0@.len() as int, node_ref.id.value, Some(node_ref.id.value), true),
                    t == node_ref.tree,
                    start == node_ref.id.value,
                    target == seek(*t, m, start, cur0, matched0),
                    m == sel.model(),
                    cur matches Some(c) ==> c < t.len(),
                ensures
                    target == Seek::Go(cur, matched),
                    cur matches Some(c) ==> c < t.len(),
                decreases (match cur { Some(n) => t.depth@[n as int] + 1, None => 0 }),
            {
                match cur {
                    None => {
                        return false;
                    },
                    Some(n) => {
                        proof {
                            assert(node_ok(t.nodes@, t.chains@, t.pos@, t.depth@, n as int));
                        }
                        let p = match t.nodes[n].parent {
                            Some(q) => Some(q.value),
                            None => None,
                        };
                        if sel.match_tree_node(&t.nodes[n]) {
                            cur = p;
                            matched = true;
                            break;
                        }
                        matched = false;
                        if n == start {
                            return false;
                        }
                        if sel.combinator == Combinator::Child {
                            return false;
                        }
                        cur = p;
                    },
                }
            }
            k = k - 1;
        }
        matched
    }
}

// ---------------------------------------------------------------------------
// Finding descendants along a path of selectors
// ---------------------------------------------------------------------------

/// The nodes among `s` that match `m`, in order.
pub open spec fn matching(t: Tree, s: Seq<usize>, m: SelModel) -> Seq<usize>
    decreases s.len(),
{
    if s.len() == 0 {
        Seq::empty()
    } else {
        matching(t, s.drop_last(), m) + (if node_matches(m, t.node(s.last() as int)) { seq![s.last()] } else { Seq::empty() })
    }
}

/// The elements below `x` that match `m`, in document order: the search goes down
/// through elements only, and below a match only when `m` is the last selector.
pub open spec fn collect(t: Tree, x: usize, m: SelModel, last: bool, fuel: nat) -> Seq<usize>
    decreases fuel, 0int,
{
    if fuel == 0 {
        Seq::empty()
    } else {
        let cs = t.children(x as int);
        collect_forest(t, cs, cs.len() as int, m, last, (fuel - 1) as nat)
    }
}

pub open spec fn collect_forest(t: Tree, cs: Seq<usize>, k: int, m: SelModel, last: bool, fuel: nat) -> Seq<usize>
    decreases fuel, k,
{
    if k <= 0 {
        Seq::empty()
    } else {
        let c = cs[k - 1];
        let hit = node_matches(m, t.node(c as int));
        collect_forest(t, cs, k - 1, m, last, fuel) + (if !(t.data(c as int) is Element) {
            Seq::empty()
        } else {
            (if hit { seq![c] } else { Seq::empty() }) + (if !hit || last {
                collect(t, c, m, last, fuel)
            } else {
                Seq::empty()
            })
        })
    }
}

/// The nodes that selector `m` reaches from node `x` through the combinator `comb`.
pub open spec fn step_one(t: Tree, x: usize, m: SelModel, comb: Combinator, last: bool) -> Seq<usize> {
    match comb {
        Combinator::Descendant => collect(t, x, m, last, t.len()),
        Combinator::Child => matching(t, t.children(x as int), m),
        Combinator::Adjacent => match first_element_from(&t, t.siblings(x as int), t.index(x as int) + 1) {
            Some(y) => if node_matches(m, t.node(y as int)) { seq![y] } else { Seq::empty() },
            None => Seq::empty(),
        },
        Combinator::Sibling => matching(t, t.siblings(x as int).subrange(t.index(x as int) + 1, t.siblings(x as int).len() as int), m),
    }
}

/// The nodes that selector `m` reaches from the nodes of `stack` through `comb`, in
/// the order of the stack.
pub open spec fn step(t: Tree, stack: Seq<usize>, m: SelModel, comb: Combinator, last: bool) -> Seq<usize>
    decreases stack.len(),
{
    if stack.len() == 0 {
        Seq::empty()
    } else {
        step(t, stack.drop_last(), m, comb, last) + step_one(t, stack.last(), m, comb, last)
    }
}

/// The combinator that leads to selector `k` of a path: the one written after the
/// selector before it; the first selector is searched for among the descendants.
pub open spec fn lead_combinator(ms: Seq<SelModel>, k: int) -> Combinator {
    if k == 0 { Combinator::Descendant } else { ms[k - 1].combinator }
}

/// The nodes reached from `x` by the first `k` selectors of `ms`.
pub open spec fn run_path(t: Tree, x: usize, ms: Seq<SelModel>, k: int) -> Seq<usize>
    decreases k,
{
    if k <= 0 {
        seq![x]
    } else {
        step(t, run_path(t, x, ms, k - 1), ms[k - 1], lead_combinator(ms, k - 1), k == ms.len())
    }
}

fn collect_desc(t: &Tree, x: usize, sel: &MiniSelector, last: bool, fuel: usize, out: &mut Vec<NodeId>)
    requires
        t.wf(),
        x < t.len(),
        forall|j: int| 0 <= j < old(out)@.len() ==> (#[trigger] old(out)@[j]).value < t.len(),
    ensures
        ids_of(final(out)@) == ids_of(old(out)@) + collect(*t, x, sel.model(), last, fuel as nat),
        forall|j: int| 0 <= j < final(out)@.len() ==> (#[trigger] final(out)@[j]).value < t.len(),
    decreases fuel,
{
    let ghost start = ids_of(out@);
    let ghost m = sel.model();
    if fuel == 0 {
        proof {
            assert(start + collect(*t, x, m, last, fuel as nat) =~= start);
        }
        return;
    }
    let cs = child_ids(t, x);
    let ghost s = t.children(x as int);
    let mut k: usize = 0;
    proof {
        assert(ids_of(out@) =~= start + collect_forest(*t, s, 0, m, last, (fuel - 1) as nat));
    }
    while k < cs.len()
        invariant
            t.wf(),
            fuel > 0,
            k <= cs.len(),
            ids_of(cs@) == s,
            m == sel.model(),
            forall|j: int| 0 <= j < cs@.len() ==> (#[trigger] cs@[j]).value < t.len(),
            ids_of(out@) == start + collect_forest(*t, s, k as int, m, last, (fuel - 1) as nat),
            forall|j: int| 0 <= j < out@.len() ==> (#[trigger] out@[j]).value < t.len(),
        decreases cs.len() - k,
    {
        let c = cs[k];
        proof {
            assert(c.value == s[k as int]);
        }
        let ghost mid = ids_of(out@);
        if t.nodes[c.value].is_element() {
            let hit = sel.match_tree_node(&t.nodes[c.value]);
            if hit {
                out.push(c);
                proof {
                    assert(ids_of(out@) =~= mid.push(c.value));
                }
            }
            let ghost mid2 = ids_of(out@);
            if !hit || last {
                collect_desc(t, c.value, sel, last, fuel - 1, out);
            }
            proof {
                let part = (if hit { seq![c.value] } else { Seq::<usize>::empty() }) + (if !hit || last {
                    collect(*t, c.value, m, last, (fuel - 1) as nat)
                } else {
                    Seq::<usize>::empty()
                });
                assert(ids_of(out@) =~= mid + part);
            }
        } else {
            proof {
                assert(!(t.data(c.value as int) is Element));
            }
        }
        k = k + 1;
        proof {
            assert(ids_of(out@) =~= start + collect_forest(*t, s, k as int, m, last, (fuel - 1) as nat));
        }
    }
    proof {
        assert(start + collect_forest(*t, s, s.len() as int, m, last, (fuel - 1) as nat) =~= start + collect(*t, x, m, last, fuel as nat));
    }
}

/// The nodes among `ids` that match `sel`, appended to `out`.
fn push_matching(t: &Tree, ids: &Vec<NodeId>, sel: &MiniSelector, out: &mut Vec<NodeId>)
    requires
        t.wf(),
        forall|j: int| 0 <= j < ids@.len() ==> (#[trigger] ids@[j]).value < t.len(),
        forall|j: int| 0 <= j < old(out)@.len() ==> (#[trigger] old(out)@[j]).value < t.len(),
    ensures
        ids_of(final(out)@) == ids_of(old(out)@) + matching(*t, ids_of(ids@), sel.model()),
        forall|j: int| 0 <= j < final(out)@.len() ==> (#[trigger] final(out)@[j]).value < t.len(),
{
    let ghost start = ids_of(out@);
    let mut i: usize = 0;
    while i < ids.len()
        invariant
            i <= ids.len(),
            forall|j: int| 0 <= j < ids@.len() ==> (#[trigger] ids@[j]).value < t.len(),
            ids_of(out@) == start + matching(*t, ids_of(ids@).take(i as int), sel.model()),
            forall|j: int| 0 <= j < out@.len() ==> (#[trigger] out@[j]).value < t.len(),
        decreases ids.len() - i,
    {
        let c = ids[i];
        let ghost mid = ids_of(out@);
        if sel.match_tree_node(&t.nodes[c.value]) {
            out.push(c);
            proof {
                assert(ids_of(out@) =~= mid.push(c.value));
            }
        }
        i = i + 1;
        proof {
            assert(ids_of(ids@).take(i as int).drop_last() =~= ids_of(ids@).take(i - 1));
            assert(ids_of(out@) =~= start + matching(*t, ids_of(ids@).take(i as int), sel.model()));
        }
    }
    proof {
        assert(ids_of(ids@).take(ids.len() as int) =~= ids_of(ids@));
    }
}

/// The following siblings of node `x`, in order.
fn following_siblings(t: &Tree, x: usize) -> (r: Vec<NodeId>)
    requires
        t.wf(),
        x < t.len(),
    ensures
        ids_of(r@) == t.siblings(x as int).subrange(t.index(x as int) + 1, t.siblings(x as int).len() as int),
        forall|j: int| 0 <= j < r@.len() ==> (#[trigger] r@[j]).value < t.len(),
{
    let ghost s = t.siblings(x as int);
    let ghost i0 = t.index(x as int);
    let ghost n = t.nodes@;
    proof {
        crate::detach::lemma_neighbours(n, t.chains@, t.pos@, t.depth@, x as int);
        assert(node_ok(n, t.chains@, t.pos@, t.depth@, x as int));
    }
    let mut out: Vec<NodeId> = Vec::new();
    let mut next = t.nodes[x].next_sibling;
    let ghost mut k: int = i0 + 1;
    while next.is_some()
        invariant
            t.wf(),
            0 <= i0 < s.len(),
            i0 + 1 <= k <= s.len(),
            s == t.siblings(x as int),
            i0 == t.index(x as int),
            forall|i: int| #![trigger s[i]] 0 <= i < s.len() ==> s[i] < n.len() && t.chains@[s[i] as int] == s && t.pos@[s[i] as int] == i,
            n == t.nodes@,
            next == crate::attach::to_id(crate::attach::at(s, k)),
            ids_of(out@) == s.subrange(i0 + 1, k),
            forall|j: int| 0 <= j < out@.len() ==> (#[trigger] out@[j]).value < n.len(),
        decreases s.len() - k,
    {
        let c = next.unwrap();
        proof {
            assert(c.value == s[k]);
            assert(node_ok(n, t.chains@, t.pos@, t.depth@, c.value as int));
        }
        let ghost before = out@;
        out.push(c);
        next = t.nodes[c.value].next_sibling;
        proof {
            assert(ids_of(out@) =~= ids_of(before).push(c.value));
            k = k + 1;
            assert(ids_of(out@) =~= s.subrange(i0 + 1, k));
        }
    }
    out
}

/// The descendants of the nodes of `stack` that match the selector.
pub(crate) fn step_names(t: &Tree, stack: &Vec<NodeId>, sel: &MiniSelector, last: bool) -> (r: Vec<NodeId>)
    requires
        t.wf(),
        forall|j: int| 0 <= j < stack@.len() ==> (#[trigger] stack@[j]).value < t.len(),
    ensures
        ids_of(r@) == step(*t, ids_of(stack@), sel.model(), Combinator::Descendant, last),
        forall|j: int| 0 <= j < r@.len() ==> (#[trigger] r@[j]).value < t.len(),
{
    step_exec(t, stack, sel, Combinator::Descendant, last)
}

fn step_exec(t: &Tree, stack: &Vec<NodeId>, sel: &MiniSelector, comb: Combinator, last: bool) -> (r: Vec<NodeId>)
    requires
        t.wf(),
        forall|j: int| 0 <= j < stack@.len() ==> (#[trigger] stack@[j]).value < t.len(),
    ensures
        ids_of(r@) == step(*t, ids_of(stack@), sel.model(), comb, last),
        forall|j: int| 0 <= j < r@.len() ==> (#[trigger] r@[j]).value < t.len(),
{
    let ghost m = sel.model();
    let mut out: Vec<NodeId> = Vec::new();
    let mut i: usize = 0;
    while i < stack.len()
        invariant
            t.wf(),
            i <= stack.len(),
            m == sel.model(),
            forall|j: int| 0 <= j < stack@.len() ==> (#[trigger] stack@[j]).value < t.len(),
            ids_of(out@) == step(*t, ids_of(stack@).take(i as int), m, comb, last),
            forall|j: int| 0 <= j < out@.len() ==> (#[trigger] out@[j]).value < t.len(),
        decreases stack.len() - i,
    {
        let x = stack[i];
        let ghost before = ids_of(out@);
        match comb {
            Combinator::Descendant => {
                collect_desc(t, x.value, sel, last, t.nodes.len(), &mut out);
            },
            Combinator::Child => {
                let cs = child_ids(t, x.value);
                push_matching(t, &cs, sel, &mut out);
            },
            Combinator::Adjacent => {
                let ns = TreeNodeOps::next_element_sibling_of(t, &x);
                if let Some(y) = ns {
                    if sel.match_tree_node(&t.nodes[y.value]) {
                        out.push(y);
                        proof {
                            assert(ids_of(out@) =~= before.push(y.value));
                        }
                    }
                }
            },
            Combinator::Sibling => {
                let fs = following_siblings(t, x.value);
                push_matching(t, &fs, sel, &mut out);
            },
        }
        i = i + 1;
        proof {
            assert(ids_of(stack@).take(i as int).drop_last() =~= ids_of(stack@).take(i - 1));
            assert(ids_of(out@) =~= before + step_one(*t, x.value, m, comb, last));
        }
    }
    proof {
        assert(ids_of(stack@).take(stack.len() as int) =~= ids_of(stack@));
    }
    out
}

impl<'a> NodeRef<'a> {
    /// The descendants of this node that the selector path reaches, in the order the
    /// search finds them, or the error that the path's parse ends with.
    pub fn try_find_descendants(&self, css_path: &str) -> (r: Result<Vec<NodeRef<'a>>, SelectorError>)
        requires
            self.tree.wf(),
            self.tree.valid(self.id.value as int),
        ensures
            match list_from(css_path@, 0) {
                Parse::Done(ms, _) => r matches Ok(v) && ref_ids(v@) == run_path(*self.tree, self.id.value, ms, ms.len() as int)
                    && forall|j: int| 0 <= j < v@.len() ==> *(#[trigger] v@[j]).tree == *self.tree,
                Parse::Miss(p) => r == Err::<Vec<NodeRef<'a>>, SelectorError>(SelectorError::Error(p as usize)),
                Parse::Fail(p) => r == Err::<Vec<NodeRef<'a>>, SelectorError>(SelectorError::Failure(p as usize)),
            },
    {
        let t = self.tree;
        let sels = match parse_selector_list(css_path) {
            Ok((v, _)) => v,
            Err(e) => return Err(e),
        };
        let ghost ms = sel_models(sels@);
        let mut stack: Vec<NodeId> = Vec::new();
        stack.push(self.id);
        proof {
            assert(ids_of(stack@) =~= seq![self.id.value]);
        }
        let mut idx: usize = 0;
        while idx < sels.len()
            invariant
                t.wf(),
                idx <= sels.len(),
                ms == sel_models(sels@),
                ids_of(stack@) == run_path(*t, self.id.value, ms, idx as int),
                forall|j: int| 0 <= j < stack@.len() ==> (#[trigger] stack@[j]).value < t.len(),
            decreases sels.len() - idx,
        {
            let last = sels.len() - 1 == idx;
            let comb = if idx == 0 { Combinator::Descendant } else { sels[idx - 1].combinator };
            let new_stack = step_exec(t, &stack, &sels[idx], comb, last);
            proof {
                assert(ms[idx as int] == sels@[idx as int].model());
                if idx > 0 {
                    assert(ms[idx - 1] == sels@[idx - 1].model());
                }
            }
            stack = new_stack;
            idx = idx + 1;
        }
        let mut out: Vec<NodeRef<'a>> = Vec::new();
        let mut i: usize = 0;
        while i < stack.len()
            invariant
                i <= stack.len(),
                ref_ids(out@) == ids_of(stack@).take(i as int),
                forall|j: int| 0 <= j < out@.len() ==> *(#[trigger] out@[j]).tree == *t,
            decreases stack.len() - i,
        {
            let ghost before = out@;
            out.push(NodeRef::new(stack[i], t));
            i = i + 1;
            proof {
                assert(ref_ids(out@) =~= ref_ids(before).push(stack@[i - 1].value));
                assert(ids_of(stack@).take(i as int) =~= ids_of(stack@).take(i - 1).push(stack@[i - 1].value));
            }
        }
        proof {
            assert(ids_of(stack@).take(stack.len() as int) =~= ids_of(stack@));
        }
        Ok(out)
    }

    /// The descendants of this node that the selector path reaches; none where the
    /// path does not parse.
    pub fn find_descendants(&self, css_path: &str) -> (r: Vec<NodeRef<'a>>)
        requires
            self.tree.wf(),
            self.tree.valid(self.id.value as int),
        ensures
            match list_from(css_path@, 0) {
                Parse::Done(ms, _) => ref_ids(r@) == run_path(*self.tree, self.id.value, ms, ms.len() as int),
                _ => r@.len() == 0,
            },
    {
        match self.try_find_descendants(css_path) {
            Ok(v) => v,
            Err(_) => Vec::new(),
        }
    }
}

impl<'a> NodeRef<'a> {
    /// Whether this node matches the selector.
    pub fn mini_match(&self, matcher: &MiniSelector) -> (r: bool)
        requires
            self.tree.valid(self.id.value as int),
        ensures
            r == node_matches(matcher.model(), self.tree.node(self.id.value as int)),
    {
        matcher.match_node(self)
    }

    /// Whether this node matches the selector that `css_sel` holds; never where it
    /// does not parse.
    pub fn mini_is(&self, css_sel: &str) -> (r: bool)
        requires
            self.tree.valid(self.id.value as int),
        ensures
            r == (crate::minisel::mini_at(css_sel@, 0) matches Parse::Done(m, _) && node_matches(m, self.tree.node(self.id.value as int))),
    {
        match MiniSelector::new(css_sel) {
            Ok(sel) => self.mini_match(&sel),
            Err(_) => false,
        }
    }
}

} // verus!
