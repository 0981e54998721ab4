//! The pseudo-classes and pseudo-elements that selectors may use, and how they are written.
use vstd::prelude::*;
use crate::text::{chars_of, push_str};

verus! {

/// The selector implementation of the library: its pseudo-classes and pseudo-elements.
#[derive(Clone, Debug)]
pub struct InnerSelector;

/// Non-tree-structural pseudo-classes.
#[derive(Clone, Debug)]
pub enum NonTSPseudoClass {
    /// `:any-link` means one of the a, area, or link elements that has an href attribute.
    AnyLink,
    /// `:link` means same as `:any-link`
    Link,
    Visited,
    Active,
    Focus,
    Hover,
    Enabled,
    Disabled,
    Checked,
    Indeterminate,
    /// `:only-text` selects a node whose only child is a non-blank text node.
    OnlyText,
    /// `:has-text` selects an element whose own text or a descendant's contains the string.
    HasText(String),
    /// `:contains` selects an element whose text (its own and its descendants') contains the string.
    Contains(String),
}

/// The library has no pseudo-elements to offer; this one is written as nothing.
#[derive(Clone, Debug)]
pub struct PseudoElement;

/// The code of `c` with ASCII upper-case letters lowered.
pub open spec fn ascii_lower(c: char) -> u32 {
    if 'A' <= c && c <= 'Z' { ((c as u32) + 32) as u32 } else { c as u32 }
}

/// `a` and `b` are equal up to the case of ASCII letters.
pub open spec fn eq_ignore_case(a: Seq<char>, b: Seq<char>) -> bool {
    &&& a.len() == b.len()
    &&& forall|i: int| 0 <= i < a.len() ==> #[trigger] ascii_lower(a[i]) == ascii_lower(b[i])
}

fn lower(c: char) -> (r: u32)
    ensures
        r == ascii_lower(c),
{
    if 'A' <= c && c <= 'Z' {
        c as u32 + 32
    } else {
        c as u32
    }
}

/// Whether two strings are equal up to the case of ASCII letters.
pub fn eq_ignore_ascii_case(a: &str, b: &str) -> (r: bool)
    ensures
        r == eq_ignore_case(a@, b@),
{
    let va = chars_of(a);
    let vb = chars_of(b);
    if va.len() != vb.len() {
        return false;
    }
    let mut i: usize = 0;
    while i < va.len()
        invariant
            va@ == a@,
            vb@ == b@,
            va.len() == vb.len(),
            i <= va.len(),
            forall|j: int| 0 <= j < i ==> #[trigger] ascii_lower(va@[j]) == ascii_lower(vb@[j]),
        decreases va.len() - i,
    {
        if lower(va[i]) != lower(vb[i]) {
            return false;
        }
        i = i + 1;
    }
    true
}

/// The pseudo-class named `name` (ASCII case ignored), for the names without argument.
pub open spec fn pseudo_class_named(name: Seq<char>) -> Option<NonTSPseudoClass> {
    if eq_ignore_case(name, "any-link"@) {
        Some(NonTSPseudoClass::AnyLink)
    } else if eq_ignore_case(name, "link"@) {
        Some(NonTSPseudoClass::Link)
    } else if eq_ignore_case(name, "visited"@) {
        Some(NonTSPseudoClass::Visited)
    } else if eq_ignore_case(name, "active"@) {
        Some(NonTSPseudoClass::Active)
    } else if eq_ignore_case(name, "focus"@) {
        Some(NonTSPseudoClass::Focus)
    } else if eq_ignore_case(name, "hover"@) {
        Some(NonTSPseudoClass::Hover)
    } else if eq_ignore_case(name, "enabled"@) {
        Some(NonTSPseudoClass::Enabled)
    } else if eq_ignore_case(name, "disabled"@) {
        Some(NonTSPseudoClass::Disabled)
    } else if eq_ignore_case(name, "checked"@) {
        Some(NonTSPseudoClass::Checked)
    } else if eq_ignore_case(name, "indeterminate"@) {
        Some(NonTSPseudoClass::Indeterminate)
    } else if eq_ignore_case(name, "only-text"@) {
        Some(NonTSPseudoClass::OnlyText)
    } else {
        None
    }
}

/// The pseudo-class without argument that `name` names (ASCII case ignored), if any.
pub fn parse_non_ts_pseudo_class(name: &str) -> (r: Option<NonTSPseudoClass>)
    ensures
        r == pseudo_class_named(name@),
{
    if eq_ignore_ascii_case(name, "any-link") {
        Some(NonTSPseudoClass::AnyLink)
    } else if eq_ignore_ascii_case(name, "link") {
        Some(NonTSPseudoClass::Link)
    } else if eq_ignore_ascii_case(name, "visited") {
        Some(NonTSPseudoClass::Visited)
    } else if eq_ignore_ascii_case(name, "active") {
        Some(NonTSPseudoClass::Active)
    } else if eq_ignore_ascii_case(name, "focus") {
        Some(NonTSPseudoClass::Focus)
    } else if eq_ignore_ascii_case(name, "hover") {
        Some(NonTSPseudoClass::Hover)
    } else if eq_ignore_ascii_case(name, "enabled") {
        Some(NonTSPseudoClass::Enabled)
    } else if eq_ignore_ascii_case(name, "disabled") {
        Some(NonTSPseudoClass::Disabled)
    } else if eq_ignore_ascii_case(name, "checked") {
        Some(NonTSPseudoClass::Checked)
    } else if eq_ignore_ascii_case(name, "indeterminate") {
        Some(NonTSPseudoClass::Indeterminate)
    } else if eq_ignore_ascii_case(name, "only-text") {
        Some(NonTSPseudoClass::OnlyText)
    } else {
        None
    }
}

/// The view of a pseudo-class's argument, if it has one.
pub open spec fn pseudo_arg(p: NonTSPseudoClass) -> Option<Seq<char>> {
    match p {
        NonTSPseudoClass::HasText(s) => Some(s@),
        NonTSPseudoClass::Contains(s) => Some(s@),
        _ => None,
    }
}

/// The pseudo-class with a string argument that `name` names (ASCII case ignored):
/// `:has-text(..)` or `:contains(..)`, with `arg` as its string.
pub fn parse_non_ts_functional_pseudo_class(name: &str, arg: &str) -> (r: Option<NonTSPseudoClass>)
    ensures
        eq_ignore_case(name@, "has-text"@) ==> (r matches Some(p) && p is HasText && pseudo_arg(p) == Some(arg@)),
        !eq_ignore_case(name@, "has-text"@) && eq_ignore_case(name@, "contains"@) ==> (r matches Some(p) && p is Contains && pseudo_arg(p) == Some(arg@)),
        !eq_ignore_case(name@, "has-text"@) && !eq_ignore_case(name@, "contains"@) ==> r is None,
{
    if eq_ignore_ascii_case(name, "has-text") {
        let mut s = String::new();
        push_str(&mut s, arg);
        Some(NonTSPseudoClass::HasText(s))
    } else if eq_ignore_ascii_case(name, "contains") {
        let mut s = String::new();
        push_str(&mut s, arg);
        Some(NonTSPseudoClass::Contains(s))
    } else {
        None
    }
}

/// The lower-case hexadecimal digit of `n`, for `n` below 16.
pub open spec fn hex_digit(n: int) -> char {
    if n < 10 { (48 + n) as char } else { (87 + n) as char }
}

/// How one character is written inside a double-quoted CSS string: `"` and `\` behind a
/// backslash, NUL as U+FFFD, the other control characters (U+0001 to U+001F and U+007F)
/// as a backslash, their code in lower-case hexadecimal and a space; any other character
/// as itself.
pub open spec fn css_string_char(c: char) -> Seq<char> {
    let n = c as int;
    if c == '"' {
        seq!['\\', '"']
    } else if c == '\\' {
        seq!['\\', '\\']
    } else if n == 0 {
        seq!['\u{FFFD}']
    } else if (1 <= n <= 0x1F) || n == 0x7F {
        if n > 0x0F {
            seq!['\\', hex_digit(n / 16), hex_digit(n % 16), ' ']
        } else {
            seq!['\\', hex_digit(n), ' ']
        }
    } else {
        seq![c]
    }
}

/// The characters of `s`, each written as inside a double-quoted CSS string.
pub open spec fn css_string_body(s: Seq<char>) -> Seq<char>
    decreases s.len(),
{
    if s.len() == 0 {
        Seq::empty()
    } else {
        css_string_body(s.drop_last()) + css_string_char(s.last())
    }
}

/// `s` as a double-quoted CSS string token.
pub open spec fn css_string_token(s: Seq<char>) -> Seq<char> {
    seq!['"'] + css_string_body(s) + seq!['"']
}

/// Writes `s` as a double-quoted CSS string token (`cssparser::serialize_string`): a
/// quote, each character escaped as `css_string_char` says, and a closing quote. The
/// escapes are those of cssparser's `CssStringWriter`, which looks at single bytes and
/// so leaves every character outside ASCII as it is. Writing to a `String` does not fail.
#[verifier::external_body]
fn serialize_css_string(s: &str) -> (r: String)
    ensures
        r@ == css_string_token(s@),
{
    let mut out = String::new();
    let _ = cssparser::serialize_string(s, &mut out);
    out
}

/// How a pseudo-class is written in CSS.
pub open spec fn pseudo_css(p: NonTSPseudoClass) -> Seq<char> {
    match p {
        NonTSPseudoClass::AnyLink => ":any-link"@,
        NonTSPseudoClass::Link => ":link"@,
        NonTSPseudoClass::Visited => ":visited"@,
        NonTSPseudoClass::Active => ":active"@,
        NonTSPseudoClass::Focus => ":focus"@,
        NonTSPseudoClass::Hover => ":hover"@,
        NonTSPseudoClass::Enabled => ":enabled"@,
        NonTSPseudoClass::Disabled => ":disabled"@,
        NonTSPseudoClass::Checked => ":checked"@,
        NonTSPseudoClass::Indeterminate => ":indeterminate"@,
        NonTSPseudoClass::OnlyText => ":only-text"@,
        NonTSPseudoClass::HasText(s) => ":has-text("@ + css_string_token(s@) + ")"@,
        NonTSPseudoClass::Contains(s) => ":contains("@ + css_string_token(s@) + ")"@,
    }
}

impl NonTSPseudoClass {
    /// The pseudo-class as CSS text.
    pub fn to_css(&self) -> (r: String)
        ensures
            r@ == pseudo_css(*self),
    {
        let mut out = String::new();
        match self {
            NonTSPseudoClass::AnyLink => push_str(&mut out, ":any-link"),
            NonTSPseudoClass::Link => push_str(&mut out, ":link"),
            NonTSPseudoClass::Visited => push_str(&mut out, ":visited"),
            NonTSPseudoClass::Active => push_str(&mut out, ":active"),
            NonTSPseudoClass::Focus => push_str(&mut out, ":focus"),
            NonTSPseudoClass::Hover => push_str(&mut out, ":hover"),
            NonTSPseudoClass::Enabled => push_str(&mut out, ":enabled"),
            NonTSPseudoClass::Disabled => push_str(&mut out, ":disabled"),
            NonTSPseudoClass::Checked => push_str(&mut out, ":checked"),
            NonTSPseudoClass::Indeterminate => push_str(&mut out, ":indeterminate"),
            NonTSPseudoClass::OnlyText => push_str(&mut out, ":only-text"),
            NonTSPseudoClass::HasText(s) => {
                push_str(&mut out, ":has-text(");
                let q = serialize_css_string(s.as_str());
                push_str(&mut out, q.as_str());
                push_str(&mut out, ")");
            },
            NonTSPseudoClass::Contains(s) => {
                push_str(&mut out, ":contains(");
                let q = serialize_css_string(s.as_str());
                push_str(&mut out, q.as_str());
                push_str(&mut out, ")");
            },
        }
        proof {
            assert(Seq::<char>::empty() + ":any-link"@ =~= ":any-link"@);
        }
        out
    }

    /// Whether the pseudo-class is `:active` or `:hover`: none of the library's is.
    pub fn is_active_or_hover(&self) -> (r: bool)
        ensures
            !r,
    {
        false
    }

    /// Whether the pseudo-class depends on what the user does: none of the library's does.
    pub fn is_user_action_state(&self) -> (r: bool)
        ensures
            !r,
    {
        false
    }
}

impl PseudoElement {
    /// The pseudo-element as CSS text: nothing.
    pub fn to_css(&self) -> (r: String)
        ensures
            r@ == Seq::<char>::empty(),
    {
        String::new()
    }

    /// Whether state pseudo-classes may follow it: they may not.
    pub fn accepts_state_pseudo_classes(&self) -> (r: bool)
        ensures
            !r,
    {
        false
    }

    /// Whether it may follow `::slotted`: it may not.
    pub fn valid_after_slotted(&self) -> (r: bool)
        ensures
            !r,
    {
        false
    }
}

} // verus!
