//! A CSS path: selectors each preceded by an optional combinator, as written by a
//! path of elements (`div > a[href="x"] + span.a.b`), and how an element matches one.
use vstd::prelude::*;
use crate::node::{TreeNode, NodeData, Element};
use crate::element::{attr_value, attr_index, lit_id, lit_class};
use crate::text::{chars_of, has_word};
use crate::minisel::{
    Combinator, CharClass, span, name_at, id_at, classes_at, combinator_at, ws_end, str_views,
    lemma_span_bound, lemma_classes_bound, scan, slice_string, parse_name, parse_id, parse_classes,
    parse_combinator,
};

verus! {

/// One step of a CSS path.
#[derive(Clone, Debug)]
pub struct Selector {
    pub name: Option<String>,
    pub id: Option<String>,
    pub classes: Option<Vec<String>>,
    pub attr: Option<(String, Option<String>)>,
    pub combinator: Option<Combinator>,
}

/// A step as the grammar gives it.
pub struct StepModel {
    pub name: Option<Seq<char>>,
    pub id: Option<Seq<char>>,
    pub classes: Option<Seq<Seq<char>>>,
    pub attr: Option<(Seq<char>, Option<Seq<char>>)>,
    pub combinator: Option<Combinator>,
}

impl Selector {
    pub open spec fn model(&self) -> StepModel {
        StepModel {
            name: match self.name { Some(n) => Some(n@), None => None },
            id: match self.id { Some(n) => Some(n@), None => None },
            classes: match self.classes { Some(c) => Some(str_views(c@)), None => None },
            attr: match self.attr {
                Some((k, v)) => Some((k@, match v { Some(x) => Some(x@), None => None })),
                None => None,
            },
            combinator: self.combinator,
        }
    }
}

pub open spec fn step_models(v: Seq<Selector>) -> Seq<StepModel> {
    v.map_values(|s: Selector| s.model())
}

/// `[key]` or `[key="value"]` at `i`, the value at least one character long.
pub open spec fn path_attr_at(s: Seq<char>, i: int) -> Option<((Seq<char>, Option<Seq<char>>), int)> {
    if !(0 <= i < s.len() && s[i] == '[') {
        None
    } else {
        match name_at(s, i + 1) {
            None => None,
            Some((key, p)) => {
                let n = span(s, p + 2, CharClass::NotDoubleQuote);
                let (val, q) = if 0 <= p && p + 1 < s.len() && s[p] == '=' && s[p + 1] == '"' && n > 0 && p + 2 + n < s.len() {
                    (Some(s.subrange(p + 2, p + 2 + n)), p + 3 + n)
                } else {
                    (None, p)
                };
                if 0 <= q < s.len() && s[q] == ']' { Some(((key, val), q + 1)) } else { None }
            },
        }
    }
}

/// A step at `i`: a combinator, a name, an id, classes and an attribute test, each
/// optional, but one at least there. A step without combinator gets the descendant one.
pub open spec fn path_step_at(s: Seq<char>, i: int) -> Option<(StepModel, int)> {
    let (comb, p0) = match combinator_at(s, i) { Some((c, j)) => (Some(c), j), None => (None, i) };
    let (name, p1) = match name_at(s, p0) { Some((n, j)) => (Some(n), j), None => (None, p0) };
    let (id, p2) = match id_at(s, p1) { Some((n, j)) => (Some(n), j), None => (None, p1) };
    let (cs, j3) = classes_at(s, p2);
    let (classes, p3) = if cs.len() > 0 { (Some(cs), j3) } else { (None, p2) };
    let (attr, p4) = match path_attr_at(s, p3) { Some((a, j)) => (Some(a), j), None => (None, p3) };
    if comb.is_none() && name.is_none() && id.is_none() && classes.is_none() && attr.is_none() {
        None
    } else {
        Some((
            StepModel {
                name,
                id,
                classes,
                attr,
                combinator: Some(match comb { Some(c) => c, None => Combinator::Descendant }),
            },
            p4,
        ))
    }
}

pub proof fn lemma_step_advances(s: Seq<char>, i: int)
    requires
        0 <= i <= s.len(),
    ensures
        path_step_at(s, i) matches Some((_, q)) ==> i < q <= s.len(),
{
    lemma_span_bound(s, i, CharClass::Space);
    lemma_span_bound(s, ws_end(s, i) + 1, CharClass::Space);
    let p0 = match combinator_at(s, i) { Some((c, j)) => j, None => i };
    assert(i <= p0 <= s.len());
    assert(combinator_at(s, i).is_some() ==> i < p0);
    lemma_span_bound(s, p0, CharClass::Name);
    let p1 = match name_at(s, p0) { Some((n, j)) => j, None => p0 };
    assert(p0 <= p1 <= s.len());
    lemma_span_bound(s, p1 + 1, CharClass::Name);
    let p2 = match id_at(s, p1) { Some((n, j)) => j, None => p1 };
    assert(p1 <= p2 <= s.len());
    lemma_classes_bound(s, p2);
    let (cs, j3) = classes_at(s, p2);
    let p3 = if cs.len() > 0 { j3 } else { p2 };
    assert(p2 <= p3 <= s.len());
    lemma_span_bound(s, p3 + 1, CharClass::Name);
    let p = p3 + 1 + span(s, p3 + 1, CharClass::Name);
    lemma_span_bound(s, p + 2, CharClass::NotDoubleQuote);
    let p4 = match path_attr_at(s, p3) { Some((a, j)) => j, None => p3 };
    assert(p3 <= p4 <= s.len());
}

/// The steps of a path from `i` on, each with whitespace around it, and where they end.
pub open spec fn path_from(s: Seq<char>, i: int) -> (Seq<StepModel>, int)
    decreases s.len() - i,
{
    if !(0 <= i <= s.len()) {
        (Seq::empty(), i)
    } else {
        let j = ws_end(s, i);
        proof {
            lemma_span_bound(s, i, CharClass::Space);
            lemma_step_advances(s, j);
        }
        match path_step_at(s, j) {
            None => (Seq::empty(), i),
            Some((m, q)) => {
                proof {
                    lemma_span_bound(s, q, CharClass::Space);
                }
                let (r, k) = path_from(s, ws_end(s, q));
                (seq![m] + r, k)
            },
        }
    }
}

fn parse_path_attr(s: &Vec<char>, i: usize) -> (r: Option<((String, Option<String>), usize)>)
    requires
        i <= s.len(),
    ensures
        (match r {
            Some(((k, v), p)) => Some(((k@, match v { Some(x) => Some(x@), None => None }), p as int)),
            None => None,
        }) == path_attr_at(s@, i as int),
        r matches Some((_, p)) ==> i < p <= s.len(),
{
    if !(i < s.len() && s[i] == '[') {
        return None;
    }
    let (key, p) = match parse_name(s, i + 1) {
        None => return None,
        Some(x) => x,
    };
    let mut val: Option<String> = None;
    let mut q = p;
    if p < s.len() && s.len() - p >= 2 && s[p] == '=' && s[p + 1] == '"' {
        let e = scan(s, p + 2, CharClass::NotDoubleQuote);
        if e > p + 2 && e < s.len() {
            val = Some(slice_string(s, p + 2, e));
            q = e + 1;
        }
    }
    proof {
        lemma_span_bound(s@, p + 2, CharClass::NotDoubleQuote);
    }
    if q < s.len() && s[q] == ']' {
        Some(((key, val), q + 1))
    } else {
        None
    }
}

/// Parses one step of a path at position `i` of `s`.
pub fn parse_single_selector(s: &Vec<char>, i: usize) -> (r: Option<(Selector, usize)>)
    requires
        i <= s.len(),
    ensures
        (match r { Some((x, p)) => Some((x.model(), p as int)), None => None }) == path_step_at(s@, i as int),
        r matches Some((_, p)) ==> i < p <= s.len(),
{
    proof {
        lemma_step_advances(s@, i as int);
    }
    let (comb, p0) = match parse_combinator(s, i) {
        Some((c, j)) => (Some(c), j),
        None => (None, i),
    };
    let (name, p1) = match parse_name(s, p0) {
        Some((n, j)) => (Some(n), j),
        None => (None, p0),
    };
    let (id, p2) = match parse_id(s, p1) {
        Some((n, j)) => (Some(n), j),
        None => (None, p1),
    };
    let (cs, j3) = parse_classes(s, p2);
    let (classes, p3) = if cs.len() > 0 { (Some(cs), j3) } else { (None, p2) };
    let (attr, p4) = match parse_path_attr(s, p3) {
        Some((a, j)) => (Some(a), j),
        None => (None, p3),
    };
    if comb.is_none() && name.is_none() && id.is_none() && classes.is_none() && attr.is_none() {
        return None;
    }
    let combinator = Some(match comb {
        Some(c) => c,
        None => Combinator::Descendant,
    });
    let sel = Selector { name, id, classes, attr, combinator };
    proof {
        if let Some((x, k)) = path_step_at(s@, i as int) {
            let m = sel.model();
            assert(m.name == x.name);
            assert(m.id == x.id);
            assert(m.classes == x.classes);
            assert(m.attr == x.attr);
            assert(m == x);
        }
    }
    Some((sel, p4))
}

/// Parses a CSS path: its steps, with whitespace between them, and the position where
/// they end. A path always parses, to no steps at worst.
pub fn parse_selector_chain(input: &str) -> (r: (Vec<Selector>, usize))
    ensures
        step_models(r.0@) == path_from(input@, 0).0,
        r.1 == path_from(input@, 0).1,
{
    let s = chars_of(input);
    let mut acc: Vec<Selector> = Vec::new();
    let mut i: usize = 0;
    loop
        invariant
            i <= s.len(),
            s@ == input@,
            path_from(s@, 0).0 == step_models(acc@) + path_from(s@, i as int).0,
            path_from(s@, 0).1 == path_from(s@, i as int).1,
        decreases s.len() - i,
    {
        let j = scan(&s, i, CharClass::Space);
        match parse_single_selector(&s, j) {
            None => {
                proof {
                    assert(step_models(acc@) + path_from(s@, i as int).0 =~= step_models(acc@));
                }
                return (acc, i);
            },
            Some((m, q)) => {
                let ghost before = step_models(acc@);
                let ghost mm = m.model();
                acc.push(m);
                let e = scan(&s, q, CharClass::Space);
                proof {
                    assert(step_models(acc@) =~= before.push(mm));
                    let rest = path_from(s@, e as int).0;
                    assert(before + (seq![mm] + rest) =~= step_models(acc@) + rest);
                }
                i = e;
            },
        }
    }
}

/// The element passes the tests of the step. An id test passes when the element has no
/// id at all; an attribute test with a value compares it with the first attribute of
/// that name.
pub open spec fn step_matches_elem(m: StepModel, el: Element) -> bool {
    &&& (m.name matches Some(n) ==> el.name.local@ == n)
    &&& (m.id matches Some(i) ==> (attr_value(el.attrs@, lit_id()) matches Some(v) ==> v == i))
    &&& crate::minimatch::has_classes(el, m.classes)
    &&& (m.attr matches Some((key, v)) ==> match v {
        Some(x) => attr_value(el.attrs@, key) == Some(x),
        None => attr_index(el.attrs@, key).is_some(),
    })
}

pub open spec fn step_matches(m: StepModel, t: TreeNode) -> bool {
    match t.data {
        NodeData::Element(el) => step_matches_elem(m, el),
        _ => false,
    }
}

impl Selector {
    /// Whether the tree node is an element that passes the tests of the step.
    pub fn match_node(&self, t: &TreeNode) -> (r: bool)
        ensures
            r == step_matches(self.model(), *t),
    {
        let el = match &t.data {
            NodeData::Element(el) => el,
            _ => return false,
        };
        if let Some(n) = &self.name {
            if !crate::text::str_eq(el.name.local.as_str(), n.as_str()) {
                return false;
            }
        }
        if let Some(id) = &self.id {
            if let Some(id_attr) = el.id() {
                if !crate::text::str_eq(id_attr.as_str(), id.as_str()) {
                    return false;
                }
            }
        }
        if let Some(classes) = &self.classes {
            let ghost cs = str_views(classes@);
            let mut i: usize = 0;
            while i < classes.len()
                invariant
                    i <= classes.len(),
                    cs == str_views(classes@),
                    self.model().classes == Some(cs),
                    t.data == NodeData::Element(*el),
                    forall|k: int| 0 <= k < i ==> crate::minimatch::elem_has_class(*el, #[trigger] cs[k]),
                decreases classes.len() - i,
            {
                if !el.has_class(classes[i].as_str()) {
                    proof {
                        assert(cs[i as int] == classes@[i as int]@);
                        assert(0 <= i < cs.len());
                        assert(!crate::minimatch::elem_has_class(*el, cs[i as int]));
                        let oc = Some(cs);
                        assert(oc matches Some(x) && x == cs);
                        assert(crate::minimatch::has_classes(*el, oc) ==> crate::minimatch::elem_has_class(*el, cs[i as int]));
                    }
                    return false;
                }
                i = i + 1;
            }
            proof {
                let oc = Some(cs);
                assert(oc matches Some(x) && x == cs);
                assert(crate::minimatch::has_classes(*el, oc));
            }
        }
        if let Some((key, value)) = &self.attr {
            match value {
                Some(v) => {
                    match el.attr(key.as_str()) {
                        Some(a) => {
                            return crate::text::str_eq(a.as_str(), v.as_str());
                        },
                        None => {
                            return false;
                        },
                    }
                },
                None => {
                    return el.has_attr(key.as_str());
                },
            }
        }
        true
    }
}

} // verus!
