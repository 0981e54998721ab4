//! A minimal CSS selector: its grammar, stated as functions on character positions,
//! and the parser that follows it.
//!
//! A selector is a name, an `#id`, `.classes`, `[attribute]` tests and a combinator
//! (`>`, `+`, `~`, or whitespace for descendants). A selector list is a sequence of
//! selectors separated by whitespace.
use vstd::prelude::*;
use crate::text::{push_char, is_alnum};

verus! {

/// An attribute test: `=`, `~=`, `|=`, `^=`, `$=` or `*=`.
#[derive(Clone, Copy, Debug, PartialEq, Eq, Structural)]
pub enum AttrOperator {
    Equals,
    Includes,
    DashMatch,
    Prefix,
    Suffix,
    Substring,
}

/// How a selector relates to the one before it.
#[derive(Clone, Copy, Debug, PartialEq, Eq, Structural)]
pub enum Combinator {
    Descendant,
    Child,
    Adjacent,
    Sibling,
}

/// The value part of an attribute test.
#[derive(Clone, Debug)]
pub struct AttrValue {
    pub op: AttrOperator,
    pub value: String,
}

/// An attribute test: a key and, optionally, a value to compare with.
#[derive(Clone, Debug)]
pub struct Attribute {
    pub key: String,
    pub value: Option<AttrValue>,
}

/// A single selector. Only the name, id, class and attribute tests and the four
/// combinators are supported: no selector lists (`,`) and no pseudo-classes.
#[derive(Clone, Debug)]
pub struct MiniSelector {
    pub name: Option<String>,
    pub id: Option<String>,
    pub classes: Option<Vec<String>>,
    pub attrs: Option<Vec<Attribute>>,
    pub combinator: Combinator,
}

/// A sequence of selectors, each related to the previous one by its combinator.
pub struct MiniSelectorList(pub Vec<MiniSelector>);

/// Why a selector could not be parsed, and the character position where it stopped.
/// An `Error` is a branch that did not match; a `Failure` is a quoted value that
/// was opened and not closed (or left empty), which ends the whole parse.
#[derive(Clone, Copy, Debug, PartialEq, Eq, Structural)]
pub enum SelectorError {
    Error(usize),
    Failure(usize),
}

// ---------------------------------------------------------------------------
// The model
// ---------------------------------------------------------------------------

/// An attribute test as the grammar gives it.
pub struct AttrModel {
    pub key: Seq<char>,
    pub value: Option<(AttrOperator, Seq<char>)>,
}

/// A selector as the grammar gives it.
pub struct SelModel {
    pub name: Option<Seq<char>>,
    pub id: Option<Seq<char>>,
    pub classes: Option<Seq<Seq<char>>>,
    pub attrs: Option<Seq<AttrModel>>,
    pub combinator: Combinator,
}

/// The outcome of a grammar rule at a position: a value and the position after it,
/// a miss (the rule does not apply), or a failure (the whole parse stops).
pub enum Parse<T> {
    Done(T, int),
    Miss(int),
    Fail(int),
}

pub open spec fn str_views(v: Seq<String>) -> Seq<Seq<char>> {
    v.map_values(|s: String| s@)
}

impl Attribute {
    pub open spec fn model(&self) -> AttrModel {
        AttrModel {
            key: self.key@,
            value: match self.value {
                Some(v) => Some((v.op, v.value@)),
                None => None,
            },
        }
    }
}

pub open spec fn attr_models(v: Seq<Attribute>) -> Seq<AttrModel> {
    v.map_values(|a: Attribute| a.model())
}

impl MiniSelector {
    pub open spec fn model(&self) -> SelModel {
        SelModel {
            name: match self.name { Some(n) => Some(n@), None => None },
            id: match self.id { Some(n) => Some(n@), None => None },
            classes: match self.classes { Some(c) => Some(str_views(c@)), None => None },
            attrs: match self.attrs { Some(a) => Some(attr_models(a@)), None => None },
            combinator: self.combinator,
        }
    }
}

pub open spec fn sel_models(v: Seq<MiniSelector>) -> Seq<SelModel> {
    v.map_values(|m: MiniSelector| m.model())
}

/// The outcome of an executable parse step, seen as a grammar outcome.
pub open spec fn outcome<T, M>(r: Result<(T, usize), SelectorError>, f: spec_fn(T) -> M) -> Parse<M> {
    match r {
        Ok((x, p)) => Parse::Done(f(x), p as int),
        Err(SelectorError::Error(p)) => Parse::Miss(p as int),
        Err(SelectorError::Failure(p)) => Parse::Fail(p as int),
    }
}

// ---------------------------------------------------------------------------
// The grammar
// ---------------------------------------------------------------------------

/// Classes of characters that the grammar takes in runs.
#[derive(Clone, Copy)]
pub enum CharClass {
    /// ASCII letters, digits and `-`.
    Name,
    /// Space, tab, carriage return and line feed.
    Space,
    NotDoubleQuote,
    NotSingleQuote,
    NotBracket,
}

pub open spec fn in_class(k: CharClass, c: char) -> bool {
    match k {
        CharClass::Name => is_alnum(c) || c == '-',
        CharClass::Space => c == ' ' || c == '\t' || c == '\r' || c == '\n',
        CharClass::NotDoubleQuote => c != '"',
        CharClass::NotSingleQuote => c != '\'',
        CharClass::NotBracket => c != ']',
    }
}

/// The length of the run of characters of class `k` that starts at `i`.
pub open spec fn span(s: Seq<char>, i: int, k: CharClass) -> int
    decreases s.len() - i,
{
    if 0 <= i < s.len() && in_class(k, s[i]) { 1 + span(s, i + 1, k) } else { 0 }
}

pub proof fn lemma_span_bound(s: Seq<char>, i: int, k: CharClass)
    ensures
        0 <= span(s, i, k),
        0 <= i ==> i + span(s, i, k) <= (if i <= s.len() { s.len() as int } else { i }),
    decreases s.len() - i,
{
    if 0 <= i < s.len() && in_class(k, s[i]) {
        lemma_span_bound(s, i + 1, k);
    }
}

/// The position after the whitespace at `i`.
pub open spec fn ws_end(s: Seq<char>, i: int) -> int {
    i + span(s, i, CharClass::Space)
}

/// A name (letters, digits and `-`, at least one) at `i`, and the position after it.
pub open spec fn name_at(s: Seq<char>, i: int) -> Option<(Seq<char>, int)> {
    let k = span(s, i, CharClass::Name);
    if k > 0 { Some((s.subrange(i, i + k), i + k)) } else { None }
}

/// `#` and a name at `i`.
pub open spec fn id_at(s: Seq<char>, i: int) -> Option<(Seq<char>, int)> {
    if 0 <= i < s.len() && s[i] == '#' { name_at(s, i + 1) } else { None }
}

/// The classes (`.` and a name, as many as follow each other) at `i`.
pub open spec fn classes_at(s: Seq<char>, i: int) -> (Seq<Seq<char>>, int)
    decreases s.len() - i,
{
    if 0 <= i < s.len() && s[i] == '.' && span(s, i + 1, CharClass::Name) > 0 {
        let k = span(s, i + 1, CharClass::Name);
        proof {
            lemma_span_bound(s, i + 1, CharClass::Name);
        }
        let (r, j) = classes_at(s, i + 1 + k);
        (seq![s.subrange(i + 1, i + 1 + k)] + r, j)
    } else {
        (Seq::empty(), i)
    }
}

/// `s[j..]` starts with the two characters `a` `=`.
pub open spec fn op2(s: Seq<char>, j: int, a: char) -> bool {
    0 <= j && j + 1 < s.len() && s[j] == a && s[j + 1] == '='
}

/// An operator, with whitespace around it, at `i`.
pub open spec fn op_at(s: Seq<char>, i: int) -> Option<(AttrOperator, int)> {
    let j = ws_end(s, i);
    if op2(s, j, '~') {
        Some((AttrOperator::Includes, ws_end(s, j + 2)))
    } else if op2(s, j, '|') {
        Some((AttrOperator::DashMatch, ws_end(s, j + 2)))
    } else if op2(s, j, '^') {
        Some((AttrOperator::Prefix, ws_end(s, j + 2)))
    } else if op2(s, j, '$') {
        Some((AttrOperator::Suffix, ws_end(s, j + 2)))
    } else if op2(s, j, '*') {
        Some((AttrOperator::Substring, ws_end(s, j + 2)))
    } else if 0 <= j < s.len() && s[j] == '=' {
        Some((AttrOperator::Equals, ws_end(s, j + 1)))
    } else {
        None
    }
}

/// A quoted value whose opening quote is at `j`: at least one character, then the
/// closing quote. Anything else fails the whole parse.
pub open spec fn quoted_at(s: Seq<char>, j: int, k: CharClass) -> Parse<Seq<char>> {
    let n = span(s, j + 1, k);
    if n == 0 {
        Parse::Fail(j + 1)
    } else if j + 1 + n >= s.len() {
        Parse::Fail(j + 1 + n)
    } else {
        Parse::Done(s.subrange(j + 1, j + 1 + n), j + 2 + n)
    }
}

/// A value at `j`: quoted with `"` or `'`, or else everything up to the next `]`.
pub open spec fn value_at(s: Seq<char>, j: int) -> Parse<Seq<char>> {
    if 0 <= j < s.len() && s[j] == '"' {
        quoted_at(s, j, CharClass::NotDoubleQuote)
    } else if 0 <= j < s.len() && s[j] == '\'' {
        quoted_at(s, j, CharClass::NotSingleQuote)
    } else {
        let n = span(s, j, CharClass::NotBracket);
        if n > 0 { Parse::Done(s.subrange(j, j + n), j + n) } else { Parse::Miss(j) }
    }
}

/// An operator and a value at `i`.
pub open spec fn attr_value_at(s: Seq<char>, i: int) -> Parse<(AttrOperator, Seq<char>)> {
    match op_at(s, i) {
        None => Parse::Miss(ws_end(s, i)),
        Some((op, j)) => match value_at(s, j) {
            Parse::Done(v, k) => Parse::Done((op, v), k),
            Parse::Miss(p) => Parse::Miss(p),
            Parse::Fail(p) => Parse::Fail(p),
        },
    }
}

/// `[key]` or `[key op value]` at `i`.
pub open spec fn attr_at(s: Seq<char>, i: int) -> Parse<AttrModel> {
    if !(0 <= i < s.len() && s[i] == '[') {
        Parse::Miss(i)
    } else {
        match name_at(s, i + 1) {
            None => Parse::Miss(i + 1),
            Some((key, p)) => match attr_value_at(s, p) {
                Parse::Fail(e) => Parse::Fail(e),
                Parse::Done(v, q) => if 0 <= q < s.len() && s[q] == ']' {
                    Parse::Done(AttrModel { key, value: Some(v) }, q + 1)
                } else {
                    Parse::Miss(q)
                },
                Parse::Miss(_) => if 0 <= p < s.len() && s[p] == ']' {
                    Parse::Done(AttrModel { key, value: None }, p + 1)
                } else {
                    Parse::Miss(p)
                },
            },
        }
    }
}

/// An attribute test that is not followed by `]`.
pub open spec fn attr_item(s: Seq<char>, i: int) -> Parse<AttrModel> {
    match attr_at(s, i) {
        Parse::Done(a, q) => if 0 <= q < s.len() && s[q] == ']' { Parse::Miss(q) } else { Parse::Done(a, q) },
        Parse::Miss(p) => Parse::Miss(p),
        Parse::Fail(p) => Parse::Fail(p),
    }
}

pub proof fn lemma_attr_item_advances(s: Seq<char>, i: int)
    requires
        0 <= i,
    ensures
        attr_item(s, i) matches Parse::Done(_, q) ==> i < q <= s.len(),
{
    if 0 <= i < s.len() && s[i] == '[' {
        lemma_span_bound(s, i + 1, CharClass::Name);
        let p = i + 1 + span(s, i + 1, CharClass::Name);
        lemma_span_bound(s, p, CharClass::Space);
        let j = ws_end(s, p);
        lemma_span_bound(s, j + 1, CharClass::Space);
        lemma_span_bound(s, j + 2, CharClass::Space);
        if let Some((op, j2)) = op_at(s, p) {
            lemma_span_bound(s, j2, CharClass::NotBracket);
            lemma_span_bound(s, j2 + 1, CharClass::NotDoubleQuote);
            lemma_span_bound(s, j2 + 1, CharClass::NotSingleQuote);
        }
    }
}

/// As many attribute tests as follow each other at `i` (possibly none).
pub open spec fn attrs_from(s: Seq<char>, i: int) -> Parse<Seq<AttrModel>>
    decreases s.len() - i,
{
    if i < 0 {
        Parse::Miss(i)
    } else {
        match attr_item(s, i) {
            Parse::Fail(e) => Parse::Fail(e),
            Parse::Miss(_) => Parse::Done(Seq::empty(), i),
            Parse::Done(a, q) => {
                proof {
                    lemma_attr_item_advances(s, i);
                }
                match attrs_from(s, q) {
                    Parse::Done(r, k) => Parse::Done(seq![a] + r, k),
                    Parse::Miss(p) => Parse::Miss(p),
                    Parse::Fail(p) => Parse::Fail(p),
                }
            },
        }
    }
}

/// One or more attribute tests at `i`.
pub open spec fn attrs_at(s: Seq<char>, i: int) -> Parse<Seq<AttrModel>> {
    match attr_item(s, i) {
        Parse::Miss(p) => Parse::Miss(p),
        _ => attrs_from(s, i),
    }
}

/// A combinator (`>`, `+` or `~`), with whitespace around it, at `i`.
pub open spec fn combinator_at(s: Seq<char>, i: int) -> Option<(Combinator, int)> {
    let j = ws_end(s, i);
    if 0 <= j < s.len() && s[j] == '>' {
        Some((Combinator::Child, ws_end(s, j + 1)))
    } else if 0 <= j < s.len() && s[j] == '+' {
        Some((Combinator::Adjacent, ws_end(s, j + 1)))
    } else if 0 <= j < s.len() && s[j] == '~' {
        Some((Combinator::Sibling, ws_end(s, j + 1)))
    } else {
        None
    }
}

/// A selector at `i`: each of its parts is optional, but one at least must be there.
pub open spec fn mini_at(s: Seq<char>, i: int) -> Parse<SelModel> {
    let (name, p1) = match name_at(s, i) { Some((n, j)) => (Some(n), j), None => (None, i) };
    let (id, p2) = match id_at(s, p1) { Some((n, j)) => (Some(n), j), None => (None, p1) };
    let (cs, j3) = classes_at(s, p2);
    let (classes, p3) = if cs.len() > 0 { (Some(cs), j3) } else { (None, p2) };
    match attrs_at(s, p3) {
        Parse::Fail(e) => Parse::Fail(e),
        ar => {
            let (attrs, p4) = match ar { Parse::Done(a, j) => (Some(a), j), _ => (None, p3) };
            let (comb, p5) = match combinator_at(s, p4) { Some((c, j)) => (Some(c), j), None => (None, p4) };
            if name.is_none() && id.is_none() && classes.is_none() && attrs.is_none() && comb.is_none() {
                Parse::Miss(p5)
            } else {
                Parse::Done(
                    SelModel {
                        name,
                        id,
                        classes,
                        attrs,
                        combinator: match comb { Some(c) => c, None => Combinator::Descendant },
                    },
                    p5,
                )
            }
        },
    }
}

pub proof fn lemma_classes_bound(s: Seq<char>, i: int)
    requires
        0 <= i <= s.len(),
    ensures
        i <= classes_at(s, i).1 <= s.len(),
        classes_at(s, i).0.len() > 0 ==> i < classes_at(s, i).1,
    decreases s.len() - i,
{
    if 0 <= i < s.len() && s[i] == '.' && span(s, i + 1, CharClass::Name) > 0 {
        lemma_span_bound(s, i + 1, CharClass::Name);
        lemma_classes_bound(s, i + 1 + span(s, i + 1, CharClass::Name));
    }
}

pub proof fn lemma_attrs_bound(s: Seq<char>, i: int)
    requires
        0 <= i <= s.len(),
    ensures
        attrs_from(s, i) matches Parse::Done(_, k) ==> i <= k <= s.len(),
    decreases s.len() - i,
{
    lemma_attr_item_advances(s, i);
    if let Parse::Done(a, q) = attr_item(s, i) {
        lemma_attrs_bound(s, q);
    }
}

pub proof fn lemma_attrs_at_advances(s: Seq<char>, i: int)
    requires
        0 <= i <= s.len(),
    ensures
        attrs_at(s, i) matches Parse::Done(_, k) ==> i < k <= s.len(),
{
    lemma_attr_item_advances(s, i);
    if let Parse::Done(a, q) = attr_item(s, i) {
        lemma_attrs_bound(s, q);
    }
}

pub proof fn lemma_mini_advances(s: Seq<char>, i: int)
    requires
        0 <= i <= s.len(),
    ensures
        mini_at(s, i) matches Parse::Done(_, q) ==> i < q <= s.len(),
{
    lemma_span_bound(s, i, CharClass::Name);
    let p1 = match name_at(s, i) { Some((n, j)) => j, None => i };
    assert(i <= p1 <= s.len());
    assert(name_at(s, i).is_some() ==> i < p1);
    lemma_span_bound(s, p1 + 1, CharClass::Name);
    let p2 = match id_at(s, p1) { Some((n, j)) => j, None => p1 };
    assert(p1 <= p2 <= s.len());
    assert(id_at(s, p1).is_some() ==> p1 < p2);
    lemma_classes_bound(s, p2);
    let (cs, j3) = classes_at(s, p2);
    let p3 = if cs.len() > 0 { j3 } else { p2 };
    assert(p2 <= p3 <= s.len());
    lemma_attrs_at_advances(s, p3);
    let p4 = match attrs_at(s, p3) { Parse::Done(a, j) => j, _ => p3 };
    assert(p3 <= p4 <= s.len());
    lemma_span_bound(s, p4, CharClass::Space);
    let j = ws_end(s, p4);
    lemma_span_bound(s, j + 1, CharClass::Space);
    let p5 = match combinator_at(s, p4) { Some((c, j)) => j, None => p4 };
    assert(p4 <= p5 <= s.len());
    assert(combinator_at(s, p4).is_some() ==> p4 < p5);
}

/// The selectors of a list from `i` on, each with whitespace around it.
pub open spec fn list_from(s: Seq<char>, i: int) -> Parse<Seq<SelModel>>
    decreases s.len() - i,
{
    if !(0 <= i <= s.len()) {
        Parse::Miss(i)
    } else {
        let j = ws_end(s, i);
        proof {
            lemma_span_bound(s, i, CharClass::Space);
            lemma_mini_advances(s, j);
        }
        match mini_at(s, j) {
            Parse::Fail(e) => Parse::Fail(e),
            Parse::Miss(_) => Parse::Done(Seq::empty(), i),
            Parse::Done(m, q) => {
                proof {
                    lemma_span_bound(s, q, CharClass::Space);
                }
                match list_from(s, ws_end(s, q)) {
                    Parse::Done(r, k) => Parse::Done(seq![m] + r, k),
                    Parse::Miss(p) => Parse::Miss(p),
                    Parse::Fail(p) => Parse::Fail(p),
                }
            },
        }
    }
}

// ---------------------------------------------------------------------------
// The parser
// ---------------------------------------------------------------------------

pub open spec fn str_pos(r: Option<(String, usize)>) -> Option<(Seq<char>, int)> {
    match r {
        Some((x, p)) => Some((x@, p as int)),
        None => None,
    }
}

/// The grammar outcome `r` with `a` put before the value it gives.
pub open spec fn prefixed<T>(a: Seq<T>, r: Parse<Seq<T>>) -> Parse<Seq<T>> {
    match r {
        Parse::Done(x, k) => Parse::Done(a + x, k),
        Parse::Miss(p) => Parse::Miss(p),
        Parse::Fail(p) => Parse::Fail(p),
    }
}

fn class_has(k: CharClass, c: char) -> (r: bool)
    ensures
        r == in_class(k, c),
{
    match k {
        CharClass::Name => crate::text::is_ascii_alphanumeric(c) || c == '-',
        CharClass::Space => c == ' ' || c == '\t' || c == '\r' || c == '\n',
        CharClass::NotDoubleQuote => c != '"',
        CharClass::NotSingleQuote => c != '\'',
        CharClass::NotBracket => c != ']',
    }
}

/// The position after the run of characters of class `k` at `i`.
pub(crate) fn scan(s: &Vec<char>, i: usize, k: CharClass) -> (r: usize)
    requires
        i <= s.len(),
    ensures
        r == i + span(s@, i as int, k),
        i <= r <= s.len(),
{
    proof {
        lemma_span_bound(s@, i as int, k);
    }
    let mut j = i;
    while j < s.len() && class_has(k, s[j])
        invariant
            i <= j <= s.len(),
            span(s@, i as int, k) == (j - i) + span(s@, j as int, k),
        decreases s.len() - j,
    {
        j = j + 1;
    }
    j
}

/// The characters `s[a..b]` as a string.
pub(crate) fn slice_string(s: &Vec<char>, a: usize, b: usize) -> (r: String)
    requires
        a <= b <= s.len(),
    ensures
        r@ == s@.subrange(a as int, b as int),
{
    let mut out = String::new();
    let mut i = a;
    while i < b
        invariant
            a <= i <= b,
            b <= s.len(),
            out@ == s@.subrange(a as int, i as int),
        decreases b - i,
    {
        push_char(&mut out, s[i]);
        i = i + 1;
        proof {
            assert(out@ =~= s@.subrange(a as int, i as int));
        }
    }
    out
}

pub(crate) fn parse_name(s: &Vec<char>, i: usize) -> (r: Option<(String, usize)>)
    requires
        i <= s.len(),
    ensures
        str_pos(r) == name_at(s@, i as int),
        r matches Some((_, p)) ==> i < p <= s.len(),
{
    let j = scan(s, i, CharClass::Name);
    if j > i {
        Some((slice_string(s, i, j), j))
    } else {
        None
    }
}

pub(crate) fn parse_id(s: &Vec<char>, i: usize) -> (r: Option<(String, usize)>)
    requires
        i <= s.len(),
    ensures
        str_pos(r) == id_at(s@, i as int),
        r matches Some((_, p)) ==> i < p <= s.len(),
{
    if i < s.len() && s[i] == '#' {
        parse_name(s, i + 1)
    } else {
        None
    }
}

pub(crate) fn parse_classes(s: &Vec<char>, i: usize) -> (r: (Vec<String>, usize))
    requires
        i <= s.len(),
    ensures
        str_views(r.0@) == classes_at(s@, i as int).0,
        r.1 == classes_at(s@, i as int).1,
        i <= r.1 <= s.len(),
{
    let mut acc: Vec<String> = Vec::new();
    let mut j = i;
    proof {
        lemma_classes_bound(s@, i as int);
    }
    loop
        invariant
            i <= j <= s.len(),
            classes_at(s@, i as int).0 == str_views(acc@) + classes_at(s@, j as int).0,
            classes_at(s@, i as int).1 == classes_at(s@, j as int).1,
        ensures
            classes_at(s@, j as int).0.len() == 0,
            classes_at(s@, j as int).1 == j,
        decreases s.len() - j,
    {
        if j >= s.len() || s[j] != '.' {
            break;
        }
        let e = scan(s, j + 1, CharClass::Name);
        if e == j + 1 {
            break;
        }
        let name = slice_string(s, j + 1, e);
        let ghost before = str_views(acc@);
        acc.push(name);
        proof {
            assert(str_views(acc@) =~= before.push(s@.subrange(j + 1, e as int)));
            let rest = classes_at(s@, e as int);
            assert(classes_at(s@, j as int).0 =~= seq![s@.subrange(j + 1, e as int)] + rest.0);
            assert(str_views(acc@) + rest.0 =~= before + (seq![s@.subrange(j + 1, e as int)] + rest.0));
        }
        j = e;
    }
    proof {
        assert(classes_at(s@, j as int).0 =~= Seq::<Seq<char>>::empty());
        assert(str_views(acc@) + classes_at(s@, j as int).0 =~= str_views(acc@));
    }
    (acc, j)
}

fn parse_op(s: &Vec<char>, i: usize) -> (r: Option<(AttrOperator, usize)>)
    requires
        i <= s.len(),
    ensures
        (match r { Some((op, p)) => Some((op, p as int)), None => None }) == op_at(s@, i as int),
        r matches Some((_, p)) ==> i < p <= s.len(),
{
    let j = scan(s, i, CharClass::Space);
    if j < s.len() && s.len() - j >= 2 && s[j + 1] == '=' {
        let c = s[j];
        let op = if c == '~' {
            Some(AttrOperator::Includes)
        } else if c == '|' {
            Some(AttrOperator::DashMatch)
        } else if c == '^' {
            Some(AttrOperator::Prefix)
        } else if c == '$' {
            Some(AttrOperator::Suffix)
        } else if c == '*' {
            Some(AttrOperator::Substring)
        } else {
            None
        };
        if let Some(o) = op {
            let e = scan(s, j + 2, CharClass::Space);
            return Some((o, e));
        }
    }
    if j < s.len() && s[j] == '=' {
        let e = scan(s, j + 1, CharClass::Space);
        return Some((AttrOperator::Equals, e));
    }
    None
}

fn parse_value(s: &Vec<char>, j: usize) -> (r: Result<(String, usize), SelectorError>)
    requires
        j <= s.len(),
    ensures
        outcome(r, |x: String| x@) == value_at(s@, j as int),
        r matches Ok((_, p)) ==> j < p <= s.len(),
{
    if j < s.len() && (s[j] == '"' || s[j] == '\'') {
        let k = if s[j] == '"' { CharClass::NotDoubleQuote } else { CharClass::NotSingleQuote };
        let e = scan(s, j + 1, k);
        if e == j + 1 {
            return Err(SelectorError::Failure(j + 1));
        }
        if e >= s.len() {
            return Err(SelectorError::Failure(e));
        }
        return Ok((slice_string(s, j + 1, e), e + 1));
    }
    let e = scan(s, j, CharClass::NotBracket);
    if e > j {
        Ok((slice_string(s, j, e), e))
    } else {
        Err(SelectorError::Error(j))
    }
}

fn parse_attr_value(s: &Vec<char>, i: usize) -> (r: Result<(AttrValue, usize), SelectorError>)
    requires
        i <= s.len(),
    ensures
        outcome(r, |v: AttrValue| (v.op, v.value@)) == attr_value_at(s@, i as int),
        r matches Ok((_, p)) ==> i < p <= s.len(),
        r matches Err(SelectorError::Error(p)) ==> p <= s.len(),
{
    match parse_op(s, i) {
        None => {
            let j = scan(s, i, CharClass::Space);
            Err(SelectorError::Error(j))
        },
        Some((op, j)) => match parse_value(s, j) {
            Ok((v, k)) => Ok((AttrValue { op, value: v }, k)),
            Err(e) => Err(e),
        },
    }
}

fn parse_attr(s: &Vec<char>, i: usize) -> (r: Result<(Attribute, usize), SelectorError>)
    requires
        i <= s.len(),
    ensures
        outcome(r, |a: Attribute| a.model()) == attr_at(s@, i as int),
        r matches Ok((_, p)) ==> i < p <= s.len(),
{
    if !(i < s.len() && s[i] == '[') {
        return Err(SelectorError::Error(i));
    }
    let (key, p) = match parse_name(s, i + 1) {
        None => return Err(SelectorError::Error(i + 1)),
        Some(x) => x,
    };
    match parse_attr_value(s, p) {
        Err(SelectorError::Failure(e)) => Err(SelectorError::Failure(e)),
        Ok((v, q)) => {
            if q < s.len() && s[q] == ']' {
                Ok((Attribute { key, value: Some(v) }, q + 1))
            } else {
                Err(SelectorError::Error(q))
            }
        },
        Err(SelectorError::Error(_)) => {
            if p < s.len() && s[p] == ']' {
                Ok((Attribute { key, value: None }, p + 1))
            } else {
                Err(SelectorError::Error(p))
            }
        },
    }
}

fn parse_attr_item(s: &Vec<char>, i: usize) -> (r: Result<(Attribute, usize), SelectorError>)
    requires
        i <= s.len(),
    ensures
        outcome(r, |a: Attribute| a.model()) == attr_item(s@, i as int),
        r matches Ok((_, p)) ==> i < p <= s.len(),
{
    match parse_attr(s, i) {
        Ok((a, q)) => {
            if q < s.len() && s[q] == ']' {
                Err(SelectorError::Error(q))
            } else {
                Ok((a, q))
            }
        },
        Err(e) => Err(e),
    }
}

fn parse_attrs(s: &Vec<char>, i: usize) -> (r: Result<(Vec<Attribute>, usize), SelectorError>)
    requires
        i <= s.len(),
    ensures
        outcome(r, |v: Vec<Attribute>| attr_models(v@)) == attrs_at(s@, i as int),
        r matches Ok((_, p)) ==> i < p <= s.len(),
{
    proof {
        lemma_attrs_at_advances(s@, i as int);
    }
    match parse_attr_item(s, i) {
        Err(SelectorError::Error(p)) => return Err(SelectorError::Error(p)),
        _ => {},
    }
    let mut acc: Vec<Attribute> = Vec::new();
    let mut j = i;
    loop
        invariant
            i <= j <= s.len(),
            attrs_from(s@, i as int) == prefixed(attr_models(acc@), attrs_from(s@, j as int)),
            attrs_at(s@, i as int) == attrs_from(s@, i as int),
        decreases s.len() - j,
    {
        match parse_attr_item(s, j) {
            Err(SelectorError::Failure(p)) => {
                return Err(SelectorError::Failure(p));
            },
            Err(SelectorError::Error(_)) => {
                proof {
                    assert(attr_models(acc@) + Seq::<AttrModel>::empty() =~= attr_models(acc@));
                }
                return Ok((acc, j));
            },
            Ok((a, q)) => {
                let ghost before = attr_models(acc@);
                let ghost am = a.model();
                acc.push(a);
                proof {
                    assert(attr_models(acc@) =~= before.push(am));
                    match attrs_from(s@, q as int) {
                        Parse::Done(x, k) => {
                            assert(before + (seq![am] + x) =~= attr_models(acc@) + x);
                        },
                        _ => {},
                    }
                }
                j = q;
            },
        }
    }
}

pub(crate) fn parse_combinator(s: &Vec<char>, i: usize) -> (r: Option<(Combinator, usize)>)
    requires
        i <= s.len(),
    ensures
        (match r { Some((c, p)) => Some((c, p as int)), None => None }) == combinator_at(s@, i as int),
        r matches Some((_, p)) ==> i < p <= s.len(),
{
    let j = scan(s, i, CharClass::Space);
    if j < s.len() {
        let c = s[j];
        let comb = if c == '>' {
            Some(Combinator::Child)
        } else if c == '+' {
            Some(Combinator::Adjacent)
        } else if c == '~' {
            Some(Combinator::Sibling)
        } else {
            None
        };
        if let Some(k) = comb {
            let e = scan(s, j + 1, CharClass::Space);
            return Some((k, e));
        }
    }
    None
}

/// Parses one selector at position `i` of `s`.
pub fn parse_mini_selector_at(s: &Vec<char>, i: usize) -> (r: Result<(MiniSelector, usize), SelectorError>)
    requires
        i <= s.len(),
    ensures
        outcome(r, |m: MiniSelector| m.model()) == mini_at(s@, i as int),
        r matches Ok((_, p)) ==> i < p <= s.len(),
{
    proof {
        lemma_mini_advances(s@, i as int);
    }
    let (name, p1) = match parse_name(s, i) {
        Some((n, j)) => (Some(n), j),
        None => (None, i),
    };
    let (id, p2) = match parse_id(s, p1) {
        Some((n, j)) => (Some(n), j),
        None => (None, p1),
    };
    let (cs, j3) = parse_classes(s, p2);
    let (classes, p3) = if cs.len() > 0 { (Some(cs), j3) } else { (None, p2) };
    let (attrs, p4) = match parse_attrs(s, p3) {
        Err(SelectorError::Failure(e)) => return Err(SelectorError::Failure(e)),
        Ok((a, j)) => (Some(a), j),
        Err(SelectorError::Error(_)) => (None, p3),
    };
    let (comb, p5) = match parse_combinator(s, p4) {
        Some((c, j)) => (Some(c), j),
        None => (None, p4),
    };
    if name.is_none() && id.is_none() && classes.is_none() && attrs.is_none() && comb.is_none() {
        return Err(SelectorError::Error(p5));
    }
    let combinator = match comb {
        Some(c) => c,
        None => Combinator::Descendant,
    };
    let sel = MiniSelector { name, id, classes, attrs, combinator };
    proof {
        let m = sel.model();
        if let Parse::Done(x, k) = mini_at(s@, i as int) {
            assert(m.name == x.name);
            assert(m.id == x.id);
            assert(m.classes == x.classes);
            assert(m.attrs == x.attrs);
            assert(m == x);
        }
    }
    Ok((sel, p5))
}

/// Parses a selector at the start of `input`; the position after it comes with it.
pub fn parse_mini_selector(input: &str) -> (r: Result<(MiniSelector, usize), SelectorError>)
    ensures
        outcome(r, |m: MiniSelector| m.model()) == mini_at(input@, 0),
{
    let s = crate::text::chars_of(input);
    parse_mini_selector_at(&s, 0)
}

/// Parses a list of selectors separated by whitespace; the position where the list
/// ends comes with it.
pub fn parse_selector_list(input: &str) -> (r: Result<(Vec<MiniSelector>, usize), SelectorError>)
    ensures
        outcome(r, |v: Vec<MiniSelector>| sel_models(v@)) == list_from(input@, 0),
{
    let s = crate::text::chars_of(input);
    let mut acc: Vec<MiniSelector> = Vec::new();
    let mut i: usize = 0;
    loop
        invariant
            i <= s.len(),
            s@ == input@,
            list_from(s@, 0) == prefixed(sel_models(acc@), list_from(s@, i as int)),
        decreases s.len() - i,
    {
        let j = scan(&s, i, CharClass::Space);
        match parse_mini_selector_at(&s, j) {
            Err(SelectorError::Failure(p)) => {
                return Err(SelectorError::Failure(p));
            },
            Err(SelectorError::Error(_)) => {
                proof {
                    assert(sel_models(acc@) + Seq::<SelModel>::empty() =~= sel_models(acc@));
                }
                return Ok((acc, i));
            },
            Ok((m, q)) => {
                let ghost before = sel_models(acc@);
                let ghost mm = m.model();
                acc.push(m);
                let e = scan(&s, q, CharClass::Space);
                proof {
                    assert(sel_models(acc@) =~= before.push(mm));
                    match list_from(s@, e as int) {
                        Parse::Done(x, k) => {
                            assert(before + (seq![mm] + x) =~= sel_models(acc@) + x);
                        },
                        _ => {},
                    }
                }
                i = e;
            },
        }
    }
}

impl MiniSelector {
    /// Parses a single selector.
    pub fn new(css_sel: &str) -> (r: Result<Self, SelectorError>)
        ensures
            match mini_at(css_sel@, 0) {
                Parse::Done(m, _) => r matches Ok(x) && x.model() == m,
                Parse::Miss(p) => r == Err::<Self, SelectorError>(SelectorError::Error(p as usize)),
                Parse::Fail(p) => r == Err::<Self, SelectorError>(SelectorError::Failure(p as usize)),
            },
    {
        match parse_mini_selector(css_sel) {
            Ok((sel, _)) => Ok(sel),
            Err(e) => Err(e),
        }
    }
}

impl MiniSelectorList {
    /// Parses a list of selectors.
    pub fn new(css_sel: &str) -> (r: Result<Self, SelectorError>)
        ensures
            match list_from(css_sel@, 0) {
                Parse::Done(m, _) => r matches Ok(x) && sel_models(x.0@) == m,
                Parse::Miss(p) => r == Err::<Self, SelectorError>(SelectorError::Error(p as usize)),
                Parse::Fail(p) => r == Err::<Self, SelectorError>(SelectorError::Failure(p as usize)),
            },
    {
        match parse_selector_list(css_sel) {
            Ok((sels, _)) => Ok(MiniSelectorList(sels)),
            Err(e) => Err(e),
        }
    }
}

} // verus!
