//! Elements: their names, attributes and classes.
use vstd::prelude::*;
use crate::node::{NodeId, QualName, Attr, Element};
use crate::text::{chars_of, str_eq, string_from, push_char, push_str, contains_word, has_word, is_ws};

verus! {

/// The character sequences of a sequence of character vectors.
pub open spec fn views(v: Seq<Vec<char>>) -> Seq<Seq<char>> {
    v.map_values(|x: Vec<char>| x@)
}

/// Attribute `a` is named `name` (by its local name).
pub open spec fn named(a: Attr, name: Seq<char>) -> bool {
    a.name.local@ == name
}

/// None of the first `hi` attributes is named `name`.
pub open spec fn none_named(attrs: Seq<Attr>, name: Seq<char>, hi: int) -> bool {
    forall|j: int| 0 <= j < hi ==> !named(#[trigger] attrs[j], name)
}

/// The index of the first attribute named `name`.
pub open spec fn attr_index(attrs: Seq<Attr>, name: Seq<char>) -> Option<int> {
    if exists|j: int| 0 <= j < attrs.len() && named(#[trigger] attrs[j], name) {
        Some(choose|j: int| 0 <= j < attrs.len() && named(#[trigger] attrs[j], name) && none_named(attrs, name, j))
    } else {
        None
    }
}

/// The value of the first attribute named `name`.
pub open spec fn attr_value(attrs: Seq<Attr>, name: Seq<char>) -> Option<Seq<char>> {
    match attr_index(attrs, name) {
        Some(j) => Some(attrs[j].value@),
        None => None,
    }
}

pub open spec fn opt_view(o: Option<String>) -> Option<Seq<char>> {
    match o {
        Some(s) => Some(s@),
        None => None,
    }
}

pub proof fn lemma_attr_index(attrs: Seq<Attr>, name: Seq<char>, j: int)
    requires
        0 <= j < attrs.len(),
        named(attrs[j], name),
        none_named(attrs, name, j),
    ensures
        attr_index(attrs, name) == Some(j),
{
    let k = choose|k: int| 0 <= k < attrs.len() && named(#[trigger] attrs[k], name) && none_named(attrs, name, k);
    if k < j {
        assert(!named(attrs[k], name));
    } else if k > j {
        assert(!named(attrs[j], name));
    }
}

/// The position of the first attribute named `name`.
pub fn find_attr(attrs: &Vec<Attr>, name: &str) -> (r: Option<usize>)
    ensures
        r matches Some(j) ==> j < attrs.len(),
        match r {
            Some(j) => attr_index(attrs@, name@) == Some(j as int),
            None => attr_index(attrs@, name@).is_none(),
        },
{
    let mut i: usize = 0;
    while i < attrs.len()
        invariant
            i <= attrs.len(),
            none_named(attrs@, name@, i as int),
        decreases attrs.len() - i,
    {
        if str_eq(attrs[i].name.local.as_str(), name) {
            proof {
                lemma_attr_index(attrs@, name@, i as int);
            }
            return Some(i);
        }
        i = i + 1;
    }
    None
}

/// The words that `add_class` takes from its argument: the pieces between spaces, each
/// trimmed of whitespace, without empty ones and without repeats (first occurrence kept).
pub open spec fn class_words(s: Seq<char>) -> Seq<Seq<char>> {
    dedup(nonempty(trims(space_pieces(s))))
}

/// Each piece trimmed.
pub open spec fn trims(ps: Seq<Seq<char>>) -> Seq<Seq<char>> {
    ps.map_values(|p: Seq<char>| trim(p))
}

/// The nonempty pieces.
pub open spec fn nonempty(ps: Seq<Seq<char>>) -> Seq<Seq<char>> {
    ps.filter(|p: Seq<char>| p.len() > 0)
}

pub proof fn lemma_nonempty_push(ps: Seq<Seq<char>>, t: Seq<char>)
    ensures
        nonempty(ps.push(t)) == (if t.len() > 0 { nonempty(ps).push(t) } else { nonempty(ps) }),
{
    reveal(Seq::filter);
    assert(ps.push(t).drop_last() =~= ps);
}

/// The pieces of `s` between spaces (`' '`), empty ones included.
pub open spec fn space_pieces(s: Seq<char>) -> Seq<Seq<char>>
    decreases s.len(),
{
    if s.len() == 0 {
        seq![Seq::<char>::empty()]
    } else {
        let r = space_pieces(s.drop_last());
        if s.last() == ' ' {
            r.push(Seq::<char>::empty())
        } else {
            r.update(r.len() - 1, r.last().push(s.last()))
        }
    }
}

/// The number of leading whitespace characters of `s`.
pub open spec fn lead_ws(s: Seq<char>) -> nat
    decreases s.len(),
{
    if s.len() > 0 && is_ws(s[0]) { 1 + lead_ws(s.drop_first()) } else { 0 }
}

/// The number of trailing whitespace characters of `s`.
pub open spec fn trail_ws(s: Seq<char>) -> nat
    decreases s.len(),
{
    if s.len() > 0 && is_ws(s.last()) { 1 + trail_ws(s.drop_last()) } else { 0 }
}

/// `s` without its leading and trailing whitespace.
pub open spec fn trim(s: Seq<char>) -> Seq<char> {
    let t = s.skip(lead_ws(s) as int);
    t.take(t.len() - trail_ws(t))
}

/// `s` without repeated elements; the first occurrence of each stays.
pub open spec fn dedup(s: Seq<Seq<char>>) -> Seq<Seq<char>>
    decreases s.len(),
{
    if s.len() == 0 {
        s
    } else {
        let r = dedup(s.drop_last());
        if r.contains(s.last()) { r } else { r.push(s.last()) }
    }
}

} // verus!

verus! {

proof fn lemma_lead_ws(s: Seq<char>, k: int)
    requires
        0 <= k <= s.len(),
        forall|i: int| 0 <= i < k ==> is_ws(s[i]),
        k == s.len() || !is_ws(s[k]),
    ensures
        lead_ws(s) == k,
    decreases k,
{
    if k > 0 {
        lemma_lead_ws(s.drop_first(), k - 1);
    }
}

proof fn lemma_trail_ws(s: Seq<char>, k: int)
    requires
        0 <= k <= s.len(),
        forall|i: int| s.len() - k <= i < s.len() ==> is_ws(s[i]),
        k == s.len() || !is_ws(s[s.len() - k - 1]),
    ensures
        trail_ws(s) == k,
    decreases k,
{
    if k > 0 {
        lemma_trail_ws(s.drop_last(), k - 1);
    }
}

/// `s` without its leading and trailing whitespace.
pub fn trim_chars(s: &[char]) -> (r: Vec<char>)
    ensures
        r@ == trim(s@),
{
    let n = s.len();
    let mut a: usize = 0;
    while a < n && crate::text::is_whitespace(s[a])
        invariant
            n == s.len(),
            a <= n,
            forall|i: int| 0 <= i < a ==> is_ws(s@[i]),
        decreases n - a,
    {
        a = a + 1;
    }
    proof {
        lemma_lead_ws(s@, a as int);
    }
    let ghost t = s@.skip(a as int);
    let mut b: usize = n;
    while b > a && crate::text::is_whitespace(s[b - 1])
        invariant
            n == s.len(),
            a <= b <= n,
            forall|i: int| b <= i < n ==> is_ws(s@[i]),
        decreases b,
    {
        b = b - 1;
    }
    proof {
        lemma_trail_ws(t, (n - b) as int);
    }
    let mut r: Vec<char> = Vec::new();
    let mut i: usize = a;
    while i < b
        invariant
            a <= i <= b <= n,
            n == s.len(),
            r@ == s@.subrange(a as int, i as int),
        decreases b - i,
    {
        r.push(s[i]);
        i = i + 1;
        proof {
            assert(s@.subrange(a as int, i as int) =~= s@.subrange(a as int, i - 1).push(s@[i - 1]));
        }
    }
    proof {
        assert(r@ =~= t.take(t.len() - trail_ws(t)));
    }
    r
}

/// The pieces of `s` between spaces.
pub fn split_spaces(s: &[char]) -> (r: Vec<Vec<char>>)
    ensures
        views(r@) == space_pieces(s@),
{
    let mut done: Vec<Vec<char>> = Vec::new();
    let mut cur: Vec<char> = Vec::new();
    let mut i: usize = 0;
    proof {
        assert(s@.take(0) =~= Seq::<char>::empty());
        assert(views(done@).push(cur@) =~= space_pieces(s@.take(0)));
    }
    while i < s.len()
        invariant
            i <= s.len(),
            views(done@).push(cur@) == space_pieces(s@.take(i as int)),
        decreases s.len() - i,
    {
        let c = s[i];
        proof {
            assert(s@.take(i + 1).drop_last() =~= s@.take(i as int));
            assert(s@.take(i + 1).last() == c);
        }
        if c == ' ' {
            let ghost old_done = views(done@);
            let ghost old_cur = cur@;
            done.push(cur);
            cur = Vec::new();
            proof {
                assert(views(done@) =~= old_done.push(old_cur));
            }
        } else {
            let ghost old_done = views(done@);
            cur.push(c);
            proof {
                assert(views(done@) == old_done);
            }
        }
        i = i + 1;
        proof {
            assert(views(done@).push(cur@) =~= space_pieces(s@.take(i as int)));
        }
    }
    proof {
        assert(s@.take(s.len() as int) =~= s@);
    }
    let ghost before = views(done@);
    done.push(cur);
    proof {
        assert(views(done@) =~= before.push(cur@));
    }
    done
}

/// Whether `w` is one of the words in `v`.
pub fn contains_chars(v: &Vec<Vec<char>>, w: &Vec<char>) -> (r: bool)
    ensures
        r == views(v@).contains(w@),
{
    let mut i: usize = 0;
    while i < v.len()
        invariant
            i <= v.len(),
            forall|j: int| 0 <= j < i ==> (#[trigger] v@[j])@ != w@,
        decreases v.len() - i,
    {
        if crate::text::chars_eq(v[i].as_slice(), w.as_slice()) {
            proof {
                assert(views(v@)[i as int] == w@);
            }
            return true;
        }
        i = i + 1;
    }
    proof {
        assert forall|j: int| 0 <= j < v@.len() implies #[trigger] views(v@)[j] != w@ by {
            assert(views(v@)[j] == v@[j]@);
        }
    }
    false
}

/// The words that `add_class` takes from `s`.
pub fn class_words_of(s: &str) -> (r: Vec<Vec<char>>)
    ensures
        views(r@) == class_words(s@),
{
    let v = chars_of(s);
    let pieces = split_spaces(v.as_slice());
    let ghost ps = views(pieces@);
    let mut r: Vec<Vec<char>> = Vec::new();
    let mut j: usize = 0;
    proof {
        assert(trims(ps).take(0) =~= Seq::<Seq<char>>::empty());
        reveal(Seq::filter);
    }
    while j < pieces.len()
        invariant
            j <= pieces.len(),
            ps == views(pieces@),
            ps.len() == pieces@.len(),
            views(r@) == dedup(nonempty(trims(ps).take(j as int))),
        decreases pieces.len() - j,
    {
        let t = trim_chars(pieces[j].as_slice());
        let ghost before = views(r@);
        proof {
            assert(ps[j as int] == pieces@[j as int]@);
            assert(trims(ps)[j as int] == t@);
            assert(trims(ps).take(j + 1) =~= trims(ps).take(j as int).push(t@));
            lemma_nonempty_push(trims(ps).take(j as int), t@);
        }
        if t.len() > 0 {
            if !contains_chars(&r, &t) {
                r.push(t);
                proof {
                    assert(views(r@) =~= before.push(t@));
                }
            }
        }
        proof {
            let sub = nonempty(trims(ps).take(j as int));
            if t@.len() > 0 {
                assert(sub.push(t@).drop_last() =~= sub);
            }
        }
        j = j + 1;
    }
    proof {
        assert(trims(ps).take(pieces.len() as int) =~= trims(ps));
    }
    r
}

} // verus!

verus! {

pub open spec fn lit_class() -> Seq<char> {
    seq!['c', 'l', 'a', 's', 's']
}

pub open spec fn lit_id() -> Seq<char> {
    seq!['i', 'd']
}

pub open spec fn lit_href() -> Seq<char> {
    seq!['h', 'r', 'e', 'f']
}

/// The words joined with single spaces.
pub open spec fn join_words(ws: Seq<Seq<char>>) -> Seq<char>
    decreases ws.len(),
{
    if ws.len() == 0 {
        Seq::empty()
    } else if ws.len() == 1 {
        ws[0]
    } else {
        join_words(ws.drop_last()) + seq![' '] + ws.last()
    }
}

/// The class value `v` once each word of `ws` that it lacks is appended after a space.
pub open spec fn add_words(v: Seq<char>, ws: Seq<Seq<char>>) -> Seq<char>
    decreases ws.len(),
{
    if ws.len() == 0 {
        v
    } else {
        let v1 = add_words(v, ws.drop_last());
        if has_word(v1, ws.last(), true) { v1 } else { v1 + seq![' '] + ws.last() }
    }
}

/// Two qualified names are the same.
pub open spec fn same_name(a: QualName, b: QualName) -> bool {
    &&& opt_view(a.prefix) == opt_view(b.prefix)
    &&& a.ns@ == b.ns@
    &&& a.local@ == b.local@
}

/// The attribute list with `j`-th value replaced by a string with view `v`.
pub open spec fn value_replaced(old: Seq<Attr>, new: Seq<Attr>, j: int, v: Seq<char>) -> bool {
    &&& new.len() == old.len()
    &&& forall|k: int| 0 <= k < old.len() && k != j ==> #[trigger] new[k] == old[k]
    &&& new[j].name == old[j].name
    &&& new[j].value@ == v
}

/// The attribute list with one attribute appended, of local name `name` and value `v`.
pub open spec fn attr_pushed(old: Seq<Attr>, new: Seq<Attr>, name: Seq<char>, v: Seq<char>) -> bool {
    &&& new.len() == old.len() + 1
    &&& forall|k: int| 0 <= k < old.len() ==> #[trigger] new[k] == old[k]
    &&& new.last().name.prefix.is_none()
    &&& new.last().name.ns@ == Seq::<char>::empty()
    &&& new.last().name.local@ == name
    &&& new.last().value@ == v
}

/// The words joined with single spaces.
pub fn join_chars(ws: &Vec<Vec<char>>) -> (r: String)
    ensures
        r@ == join_words(views(ws@)),
{
    let mut s = String::new();
    let mut i: usize = 0;
    while i < ws.len()
        invariant
            i <= ws.len(),
            s@ == join_words(views(ws@).take(i as int)),
        decreases ws.len() - i,
    {
        proof {
            assert(views(ws@).take(i + 1).drop_last() =~= views(ws@).take(i as int));
            assert(views(ws@)[i as int] == ws@[i as int]@);
        }
        if i > 0 {
            push_char(&mut s, ' ');
        }
        let w = string_from(ws[i].as_slice());
        push_str(&mut s, w.as_str());
        i = i + 1;
        proof {
            if i == 1 {
                assert(s@ =~= views(ws@).take(1)[0]);
            }
        }
    }
    proof {
        assert(views(ws@).take(ws.len() as int) =~= views(ws@));
    }
    s
}

/// Moves the attributes out of a vector, leaving it empty.
fn take_attrs(v: &mut Vec<Attr>) -> (r: Vec<Attr>)
    ensures
        r@ == old(v)@,
        final(v)@.len() == 0,
{
    let mut out: Vec<Attr> = Vec::new();
    std::mem::swap(v, &mut out);
    out
}

impl Element {
    /// Create a new element.
    pub fn new(name: QualName, attrs: Vec<Attr>, template_contents: Option<NodeId>, mathml_annotation_xml_integration_point: bool) -> (r: Element)
        ensures
            r.name == name,
            r.attrs == attrs,
            r.template_contents == template_contents,
            r.mathml_annotation_xml_integration_point == mathml_annotation_xml_integration_point,
    {
        Element { name, attrs, template_contents, mathml_annotation_xml_integration_point }
    }

    /// The name of the node.
    pub fn node_name(&self) -> (r: String)
        ensures
            r@ == self.name.local@,
    {
        self.name.local.clone()
    }

    /// Gets the specified attribute's value.
    pub fn attr(&self, name: &str) -> (r: Option<String>)
        ensures
            opt_view(r) == attr_value(self.attrs@, name@),
    {
        match find_attr(&self.attrs, name) {
            Some(j) => Some(self.attrs[j].value.clone()),
            None => None,
        }
    }

    /// Get the class attribute of the node.
    pub fn class(&self) -> (r: Option<String>)
        ensures
            opt_view(r) == attr_value(self.attrs@, lit_class()),
    {
        proof {
            reveal_strlit("class");
            assert("class"@ =~= lit_class());
        }
        self.attr("class")
    }

    /// Get the id attribute of the node.
    pub fn id(&self) -> (r: Option<String>)
        ensures
            opt_view(r) == attr_value(self.attrs@, lit_id()),
    {
        proof {
            reveal_strlit("id");
            assert("id"@ =~= lit_id());
        }
        self.attr("id")
    }

    /// Checks if the element has an attribute with the name.
    pub fn has_attr(&self, name: &str) -> (r: bool)
        ensures
            r == attr_index(self.attrs@, name@).is_some(),
    {
        find_attr(&self.attrs, name).is_some()
    }

    /// Whether the element has the given class.
    pub fn has_class(&self, class: &str) -> (r: bool)
        ensures
            r == (attr_value(self.attrs@, lit_class()) matches Some(v) && has_word(v, class@, true)),
    {
        match self.class() {
            Some(v) => {
                let vs = chars_of(v.as_str());
                let cs = chars_of(class);
                contains_word(vs.as_slice(), cs.as_slice(), true)
            },
            None => false,
        }
    }

    /// Sets the specified attribute's value.
    pub fn set_attr(&mut self, name: &str, val: &str)
        ensures
            final(self).template_contents == old(self).template_contents,
            final(self).mathml_annotation_xml_integration_point == old(self).mathml_annotation_xml_integration_point,
            final(self).name == old(self).name,
            match attr_index(old(self).attrs@, name@) {
                Some(j) => value_replaced(old(self).attrs@, final(self).attrs@, j, val@),
                None => attr_pushed(old(self).attrs@, final(self).attrs@, name@, val@),
            },
    {
        match find_attr(&self.attrs, name) {
            Some(j) => {
                self.attrs[j].value = val.to_owned();
            },
            None => {
                self.attrs.push(Attr { name: QualName::local_only(name), value: val.to_owned() });
            },
        }
    }

    /// Removes the specified attribute from the element.
    pub fn remove_attr(&mut self, name: &str)
        ensures
            final(self).template_contents == old(self).template_contents,
            final(self).mathml_annotation_xml_integration_point == old(self).mathml_annotation_xml_integration_point,
            final(self).name == old(self).name,
            final(self).attrs@ == old(self).attrs@.filter(|a: Attr| !named(a, name@)),
    {
        let mut old_attrs = take_attrs(&mut self.attrs);
        let ghost orig = old_attrs@;
        let mut kept: Vec<Attr> = Vec::new();
        let ghost mut i: int = 0;
        proof {
            reveal(Seq::filter);
            assert(orig.take(0) =~= Seq::<Attr>::empty());
        }
        while old_attrs.len() > 0
            invariant
                0 <= i <= orig.len(),
                old_attrs@ == orig.skip(i),
                kept@ == orig.take(i).filter(|a: Attr| !named(a, name@)),
            decreases old_attrs.len(),
        {
            let a = old_attrs.remove(0);
            proof {
                reveal(Seq::filter);
                assert(orig.take(i + 1).drop_last() =~= orig.take(i));
                assert(orig.take(i + 1).last() == a);
                assert(orig.skip(i + 1) =~= orig.skip(i).drop_first());
            }
            if !str_eq(a.name.local.as_str(), name) {
                kept.push(a);
            }
            proof {
                i = i + 1;
            }
        }
        proof {
            assert(orig.take(i) =~= orig);
        }
        self.attrs = kept;
    }

    /// Removes all attributes from the element.
    pub fn remove_all_attrs(&mut self)
        ensures
            final(self).template_contents == old(self).template_contents,
            final(self).mathml_annotation_xml_integration_point == old(self).mathml_annotation_xml_integration_point,
            final(self).name == old(self).name,
            final(self).attrs@ == Seq::<Attr>::empty(),
    {
        self.attrs.clear();
    }

    /// Renames the element.
    pub fn rename(&mut self, name: &str)
        ensures
            final(self).template_contents == old(self).template_contents,
            final(self).mathml_annotation_xml_integration_point == old(self).mathml_annotation_xml_integration_point,
            final(self).name.prefix.is_none(),
            final(self).name.ns@ == Seq::<char>::empty(),
            final(self).name.local@ == name@,
            final(self).attrs == old(self).attrs,
    {
        self.name = QualName::local_only(name);
    }

    /// If element is a link: an `a`, `area` or `link` element with an `href` attribute.
    pub fn is_link(&self) -> (r: bool)
        ensures
            r == ((self.name.local@ == seq!['a'] || self.name.local@ == seq!['a', 'r', 'e', 'a']
                || self.name.local@ == seq!['l', 'i', 'n', 'k']) && attr_index(self.attrs@, lit_href()).is_some()),
    {
        proof {
            reveal_strlit("a");
            reveal_strlit("area");
            reveal_strlit("link");
            reveal_strlit("href");
            assert("a"@ =~= seq!['a']);
            assert("area"@ =~= seq!['a', 'r', 'e', 'a']);
            assert("link"@ =~= seq!['l', 'i', 'n', 'k']);
            assert("href"@ =~= lit_href());
        }
        let n = self.name.local.as_str();
        (str_eq(n, "a") || str_eq(n, "area") || str_eq(n, "link")) && self.has_attr("href")
    }

    /// Add classes to the element: each word of `classes` that the class attribute lacks is
    /// appended to it; the attribute is created when missing.
    pub fn add_class(&mut self, classes: &str)
        ensures
            final(self).template_contents == old(self).template_contents,
            final(self).mathml_annotation_xml_integration_point == old(self).mathml_annotation_xml_integration_point,
            final(self).name == old(self).name,
            trim(classes@).len() == 0 ==> final(self).attrs@ == old(self).attrs@,
            trim(classes@).len() > 0 ==> match attr_index(old(self).attrs@, lit_class()) {
                Some(j) => value_replaced(old(self).attrs@, final(self).attrs@, j, add_words(old(self).attrs@[j].value@, class_words(classes@))),
                None => attr_pushed(old(self).attrs@, final(self).attrs@, lit_class(), join_words(class_words(classes@))),
            },
    {
        let cv = chars_of(classes);
        let t = trim_chars(cv.as_slice());
        if t.len() == 0 {
            return;
        }
        let words = class_words_of(classes);
        proof {
            reveal_strlit("class");
            assert("class"@ =~= lit_class());
        }
        match find_attr(&self.attrs, "class") {
            Some(j) => {
                let mut value: Vec<char> = chars_of(self.attrs[j].value.as_str());
                let ghost v0 = value@;
                let mut i: usize = 0;
                while i < words.len()
                    invariant
                        i <= words.len(),
                        value@ == add_words(v0, views(words@).take(i as int)),
                    decreases words.len() - i,
                {
                    proof {
                        assert(views(words@).take(i + 1).drop_last() =~= views(words@).take(i as int));
                        assert(views(words@)[i as int] == words@[i as int]@);
                    }
                    if !contains_word(value.as_slice(), words[i].as_slice(), true) {
                        let ghost before = value@;
                        value.push(' ');
                        let mut k: usize = 0;
                        while k < words[i].len()
                            invariant
                                i < words.len(),
                                k <= words@[i as int].len(),
                                value@ == before + seq![' '] + words@[i as int]@.take(k as int),
                            decreases words@[i as int].len() - k,
                        {
                            value.push(words[i][k]);
                            k = k + 1;
                            proof {
                                assert(words@[i as int]@.take(k as int) =~= words@[i as int]@.take(k - 1).push(words@[i as int]@[k - 1]));
                            }
                        }
                        proof {
                            assert(words@[i as int]@.take(words@[i as int].len() as int) =~= words@[i as int]@);
                        }
                    }
                    i = i + 1;
                }
                proof {
                    assert(views(words@).take(words.len() as int) =~= views(words@));
                }
                self.attrs[j].value = string_from(value.as_slice());
            },
            None => {
                let value = join_chars(&words);
                self.attrs.push(Attr { name: QualName::local_only("class"), value });
            },
        }
    }

    /// Remove classes from the element: the class attribute keeps its words (each once, in
    /// order) that are not words of `class`.
    pub fn remove_class(&mut self, class: &str)
        ensures
            final(self).template_contents == old(self).template_contents,
            final(self).mathml_annotation_xml_integration_point == old(self).mathml_annotation_xml_integration_point,
            final(self).name == old(self).name,
            trim(class@).len() == 0 ==> final(self).attrs@ == old(self).attrs@,
            trim(class@).len() > 0 ==> match attr_index(old(self).attrs@, lit_class()) {
                Some(j) => value_replaced(old(self).attrs@, final(self).attrs@, j, join_words(
                    class_words(old(self).attrs@[j].value@).filter(|w: Seq<char>| !class_words(class@).contains(w)),
                )),
                None => final(self).attrs@ == old(self).attrs@,
            },
    {
        let cv = chars_of(class);
        let t = trim_chars(cv.as_slice());
        if t.len() == 0 {
            return;
        }
        let removes = class_words_of(class);
        proof {
            reveal_strlit("class");
            assert("class"@ =~= lit_class());
        }
        match find_attr(&self.attrs, "class") {
            Some(j) => {
                let existing = class_words_of(self.attrs[j].value.as_str());
                let ghost ex = views(existing@);
                let ghost rm = class_words(class@);
                let mut kept: Vec<Vec<char>> = Vec::new();
                let mut existing = existing;
                let ghost mut i: int = 0;
                proof {
                    reveal(Seq::filter);
                    assert(ex.take(0) =~= Seq::<Seq<char>>::empty());
                }
                while existing.len() > 0
                    invariant
                        0 <= i <= ex.len(),
                        views(existing@) == ex.skip(i),
                        views(removes@) == rm,
                        views(kept@) == ex.take(i).filter(|w: Seq<char>| !rm.contains(w)),
                    decreases existing.len(),
                {
                    let ghost before_ex = existing@;
                    proof {
                        assert(views(before_ex).len() == before_ex.len());
                        assert(i < ex.len());
                    }
                    let w = existing.remove(0);
                    proof {
                        reveal(Seq::filter);
                        assert(existing@ =~= before_ex.drop_first());
                        assert(views(before_ex)[0] == w@);
                        assert(ex.take(i + 1).drop_last() =~= ex.take(i));
                        assert(views(existing@) =~= views(before_ex).drop_first());
                        assert(ex.skip(i + 1) =~= ex.skip(i).drop_first());
                        assert(views(existing@) =~= ex.skip(i + 1));
                        assert(ex.skip(i)[0] == w@);
                        assert(ex.take(i + 1).last() == w@);
                    }
                    if !contains_chars(&removes, &w) {
                        let ghost before = views(kept@);
                        kept.push(w);
                        proof {
                            assert(views(kept@) =~= before.push(w@));
                        }
                    }
                    proof {
                        i = i + 1;
                    }
                }
                proof {
                    assert(ex.take(i) =~= ex);
                }
                self.attrs[j].value = join_chars(&kept);
            },
            None => {},
        }
    }

    /// Removes the attributes with the given names from the element.
    pub fn remove_attrs(&mut self, names: &[&str])
        ensures
            final(self).template_contents == old(self).template_contents,
            final(self).mathml_annotation_xml_integration_point == old(self).mathml_annotation_xml_integration_point,
            final(self).name == old(self).name,
            final(self).attrs@ == old(self).attrs@.filter(|a: Attr| names@.map_values(|n: &str| n@).contains(a.name.local@) == false),
    {
        self.filter_attrs(names, false)
    }

    /// Retains only the attributes with the given names.
    pub fn retain_attrs(&mut self, names: &[&str])
        ensures
            final(self).template_contents == old(self).template_contents,
            final(self).mathml_annotation_xml_integration_point == old(self).mathml_annotation_xml_integration_point,
            final(self).name == old(self).name,
            final(self).attrs@ == old(self).attrs@.filter(|a: Attr| names@.map_values(|n: &str| n@).contains(a.name.local@) == true),
    {
        self.filter_attrs(names, true)
    }

    /// Keeps the attributes whose name is among `names` exactly when `keep_listed`.
    fn filter_attrs(&mut self, names: &[&str], keep_listed: bool)
        ensures
            final(self).template_contents == old(self).template_contents,
            final(self).mathml_annotation_xml_integration_point == old(self).mathml_annotation_xml_integration_point,
            final(self).name == old(self).name,
            final(self).attrs@ == old(self).attrs@.filter(|a: Attr| names@.map_values(|n: &str| n@).contains(a.name.local@) == keep_listed),
    {
        let ghost nv = names@.map_values(|n: &str| n@);
        let mut old_attrs = take_attrs(&mut self.attrs);
        let ghost orig = old_attrs@;
        let mut kept: Vec<Attr> = Vec::new();
        let ghost mut i: int = 0;
        proof {
            reveal(Seq::filter);
            assert(orig.take(0) =~= Seq::<Attr>::empty());
        }
        while old_attrs.len() > 0
            invariant
                0 <= i <= orig.len(),
                old_attrs@ == orig.skip(i),
                nv == names@.map_values(|n: &str| n@),
                kept@ == orig.take(i).filter(|a: Attr| nv.contains(a.name.local@) == keep_listed),
            decreases old_attrs.len(),
        {
            let a = old_attrs.remove(0);
            proof {
                reveal(Seq::filter);
                assert(orig.take(i + 1).drop_last() =~= orig.take(i));
                assert(orig.take(i + 1).last() == a);
                assert(orig.skip(i + 1) =~= orig.skip(i).drop_first());
            }
            let mut listed = false;
            let mut k: usize = 0;
            while k < names.len()
                invariant
                    k <= names.len(),
                    nv == names@.map_values(|n: &str| n@),
                    nv.len() == names@.len(),
                    listed == (exists|m: int| 0 <= m < k && nv[m] == a.name.local@),
                decreases names.len() - k,
            {
                proof {
                    assert(nv[k as int] == names@[k as int]@);
                }
                if str_eq(names[k], a.name.local.as_str()) {
                    listed = true;
                }
                k = k + 1;
            }
            proof {
                if listed {
                    let m = choose|m: int| 0 <= m < k && nv[m] == a.name.local@;
                    assert(nv.contains(a.name.local@));
                }
                if nv.contains(a.name.local@) {
                    let m = choose|m: int| 0 <= m < nv.len() && nv[m] == a.name.local@;
                    assert(0 <= m < k);
                }
            }
            if listed == keep_listed {
                kept.push(a);
            }
            proof {
                i = i + 1;
            }
        }
        proof {
            assert(orig.take(i) =~= orig);
        }
        self.attrs = kept;
    }

    /// Add attributes whose names the element does not have yet.
    pub fn add_attrs_if_missing(&mut self, attrs: Vec<Attr>)
        ensures
            final(self).template_contents == old(self).template_contents,
            final(self).mathml_annotation_xml_integration_point == old(self).mathml_annotation_xml_integration_point,
            final(self).name == old(self).name,
            final(self).attrs@ == old(self).attrs@ + attrs@.filter(|a: Attr| !(exists|k: int| 0 <= k < old(self).attrs@.len() && same_name(#[trigger] old(self).attrs@[k].name, a.name))),
    {
        let ghost existing = self.attrs@;
        let ghost pred = |a: Attr| !(exists|k: int| 0 <= k < existing.len() && same_name(#[trigger] existing[k].name, a.name));
        let n0 = self.attrs.len();
        let mut rest = attrs;
        let ghost orig = rest@;
        let ghost mut i: int = 0;
        proof {
            reveal(Seq::filter);
            assert(orig.take(0) =~= Seq::<Attr>::empty());
            assert(self.attrs@ =~= existing + orig.take(0).filter(pred));
        }
        while rest.len() > 0
            invariant
                0 <= i <= orig.len(),
                rest@ == orig.skip(i),
                n0 == existing.len(),
                self.attrs@.len() >= n0,
                self.attrs@.take(n0 as int) == existing,
                self.attrs@ == existing + orig.take(i).filter(pred),
                self.name == old(self).name,
                self.template_contents == old(self).template_contents,
                self.mathml_annotation_xml_integration_point == old(self).mathml_annotation_xml_integration_point,
                existing == old(self).attrs@,
                pred == (|a: Attr| !(exists|k: int| 0 <= k < existing.len() && same_name(#[trigger] existing[k].name, a.name))),
            decreases rest.len(),
        {
            let a = rest.remove(0);
            proof {
                reveal(Seq::filter);
                assert(orig.take(i + 1).drop_last() =~= orig.take(i));
                assert(orig.take(i + 1).last() == a);
                assert(orig.skip(i + 1) =~= orig.skip(i).drop_first());
            }
            let mut found = false;
            let mut k: usize = 0;
            while k < n0
                invariant
                    k <= n0,
                    n0 == existing.len(),
                    self.attrs@.len() >= n0,
                    self.attrs@.take(n0 as int) == existing,
                    found == (exists|m: int| 0 <= m < k && same_name(#[trigger] existing[m].name, a.name)),
                decreases n0 - k,
            {
                proof {
                    assert(self.attrs@[k as int] == existing[k as int]);
                }
                if qual_name_eq(&self.attrs[k].name, &a.name) {
                    found = true;
                }
                k = k + 1;
            }
            let ghost before = self.attrs@;
            if !found {
                self.attrs.push(a);
            }
            proof {
                if !found {
                    assert(self.attrs@ =~= before.push(a));
                }
                assert(self.attrs@.take(n0 as int) =~= existing);
                i = i + 1;
            }
        }
        proof {
            assert(orig.take(i) =~= orig);
        }
    }
}

/// Whether two qualified names are the same.
pub fn qual_name_eq(a: &QualName, b: &QualName) -> (r: bool)
    ensures
        r == same_name(*a, *b),
{
    let pe = match (&a.prefix, &b.prefix) {
        (Some(x), Some(y)) => str_eq(x.as_str(), y.as_str()),
        (None, None) => true,
        _ => false,
    };
    pe && str_eq(a.ns.as_str(), b.ns.as_str()) && str_eq(a.local.as_str(), b.local.as_str())
}

} // verus!
