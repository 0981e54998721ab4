//! Characters and strings: the conversions and scans that the rest of the library builds on.
use vstd::prelude::*;

verus! {

/// The Unicode `White_Space` property, which `char::is_whitespace` tests.
pub open spec fn is_ws(c: char) -> bool {
    let u = c as u32;
    ||| (0x9 <= u && u <= 0xd)
    ||| u == 0x20
    ||| u == 0x85
    ||| u == 0xa0
    ||| u == 0x1680
    ||| (0x2000 <= u && u <= 0x200a)
    ||| u == 0x2028
    ||| u == 0x2029
    ||| u == 0x202f
    ||| u == 0x205f
    ||| u == 0x3000
}

/// Whether `c` has the Unicode `White_Space` property.
pub fn is_whitespace(c: char) -> (r: bool)
    ensures
        r == is_ws(c),
{
    let u = c as u32;
    (0x9 <= u && u <= 0xd) || u == 0x20 || u == 0x85 || u == 0xa0 || u == 0x1680 || (0x2000 <= u
        && u <= 0x200a) || u == 0x2028 || u == 0x2029 || u == 0x202f || u == 0x205f || u == 0x3000
}

/// ASCII whitespace: space, tab, line feed, form feed and carriage return.
pub open spec fn is_ascii_ws(c: char) -> bool {
    c == ' ' || c == '\t' || c == '\n' || c == '\x0C' || c == '\r'
}

pub fn is_ascii_whitespace(c: char) -> (r: bool)
    ensures
        r == is_ascii_ws(c),
{
    c == ' ' || c == '\t' || c == '\n' || c == '\x0C' || c == '\r'
}

pub open spec fn is_alnum(c: char) -> bool {
    ('a' <= c && c <= 'z') || ('A' <= c && c <= 'Z') || ('0' <= c && c <= '9')
}

/// Whether `c` is an ASCII letter or digit.
pub fn is_ascii_alphanumeric(c: char) -> (r: bool)
    ensures
        r == is_alnum(c),
{
    ('a' <= c && c <= 'z') || ('A' <= c && c <= 'Z') || ('0' <= c && c <= '9')
}

pub open spec fn is_digit(c: char) -> bool {
    '0' <= c && c <= '9'
}

/// The characters of a string.
pub fn chars_of(s: &str) -> (r: Vec<char>)
    ensures
        r@ == s@,
{
    let mut v: Vec<char> = Vec::new();
    for c in it: s.chars()
        invariant
            v@ == it.seq().take(it.index() as int),
            it.seq() == s@,
    {
        v.push(c);
    }
    v
}

/// Appends one character to a string (`String::push`).
#[verifier::external_body]
pub(crate) fn push_char(s: &mut String, c: char)
    ensures
        final(s)@ == old(s)@.push(c),
{
    s.push(c);
}

/// A string made of the given characters.
pub fn string_from(v: &[char]) -> (r: String)
    ensures
        r@ == v@,
{
    let mut s = String::new();
    let mut i: usize = 0;
    while i < v.len()
        invariant
            i <= v.len(),
            s@ == v@.take(i as int),
        decreases v.len() - i,
    {
        push_char(&mut s, v[i]);
        i = i + 1;
        proof {
            assert(v@.take(i as int) =~= v@.take(i - 1).push(v@[i - 1]));
        }
    }
    proof {
        assert(v@.take(v.len() as int) =~= v@);
    }
    s
}

/// Appends a string slice to a string.
pub fn push_str(s: &mut String, t: &str)
    ensures
        final(s)@ == old(s)@ + t@,
{
    let v = chars_of(t);
    let mut i: usize = 0;
    while i < v.len()
        invariant
            i <= v.len(),
            v@ == t@,
            s@ == old(s)@ + v@.take(i as int),
        decreases v.len() - i,
    {
        push_char(s, v[i]);
        i = i + 1;
        proof {
            assert(v@.take(i as int) =~= v@.take(i - 1).push(v@[i - 1]));
        }
    }
    proof {
        assert(v@.take(v.len() as int) =~= v@);
    }
}

/// Whether two character sequences are equal.
pub fn chars_eq(a: &[char], b: &[char]) -> (r: bool)
    ensures
        r == (a@ == b@),
{
    if a.len() != b.len() {
        return false;
    }
    let mut i: usize = 0;
    while i < a.len()
        invariant
            a.len() == b.len(),
            i <= a.len(),
            a@.take(i as int) == b@.take(i as int),
        decreases a.len() - i,
    {
        if a[i] != b[i] {
            proof {
                assert(a@[i as int] != b@[i as int]);
            }
            return false;
        }
        i = i + 1;
        proof {
            assert(a@.take(i as int) =~= a@.take(i - 1).push(a@[i - 1]));
            assert(b@.take(i as int) =~= b@.take(i - 1).push(b@[i - 1]));
        }
    }
    proof {
        assert(a@.take(a.len() as int) =~= a@);
        assert(b@.take(b.len() as int) =~= b@);
    }
    true
}

/// Whether two strings are equal.
pub fn str_eq(a: &str, b: &str) -> (r: bool)
    ensures
        r == (a@ == b@),
{
    let va = chars_of(a);
    let vb = chars_of(b);
    chars_eq(va.as_slice(), vb.as_slice())
}

/// `p` is a prefix of `s`.
pub open spec fn starts_with(s: Seq<char>, p: Seq<char>) -> bool {
    p.len() <= s.len() && s.take(p.len() as int) == p
}

/// `p` is a suffix of `s`.
pub open spec fn ends_with(s: Seq<char>, p: Seq<char>) -> bool {
    p.len() <= s.len() && s.skip(s.len() - p.len()) == p
}

/// `p` occurs in `s` at index `i`.
pub open spec fn occurs_at(s: Seq<char>, p: Seq<char>, i: int) -> bool {
    0 <= i && i + p.len() <= s.len() && s.subrange(i, i + p.len()) == p
}

/// `p` occurs somewhere in `s`.
pub open spec fn contains_seq(s: Seq<char>, p: Seq<char>) -> bool {
    exists|i: int| occurs_at(s, p, i)
}

/// Whether `p` occurs in `s` at index `i`.
pub fn matches_at(s: &[char], p: &[char], i: usize) -> (r: bool)
    ensures
        r == occurs_at(s@, p@, i as int),
{
    if i > s.len() || p.len() > s.len() - i {
        return false;
    }
    let mut j: usize = 0;
    while j < p.len()
        invariant
            i + p.len() <= s.len(),
            j <= p.len(),
            forall|k: int| 0 <= k < j ==> s@[i + k] == p@[k],
        decreases p.len() - j,
    {
        if s[i + j] != p[j] {
            proof {
                assert(s@.subrange(i as int, i + p.len())[j as int] != p@[j as int]);
            }
            return false;
        }
        j = j + 1;
    }
    proof {
        assert(s@.subrange(i as int, i + p.len()) =~= p@);
    }
    true
}

/// Whether `s` starts with `p`.
pub fn chars_starts_with(s: &[char], p: &[char]) -> (r: bool)
    ensures
        r == starts_with(s@, p@),
{
    let r = matches_at(s, p, 0);
    proof {
        if p@.len() <= s@.len() {
            assert(s@.subrange(0, p@.len() as int) =~= s@.take(p@.len() as int));
        }
    }
    r
}

/// Whether `s` ends with `p`.
pub fn chars_ends_with(s: &[char], p: &[char]) -> (r: bool)
    ensures
        r == ends_with(s@, p@),
{
    if p.len() > s.len() {
        return false;
    }
    let r = matches_at(s, p, s.len() - p.len());
    proof {
        assert(s@.subrange(s@.len() - p@.len(), s@.len() as int) =~= s@.skip(s@.len() - p@.len()));
    }
    r
}

/// Whether `p` occurs somewhere in `s`.
pub fn chars_contains(s: &[char], p: &[char]) -> (r: bool)
    ensures
        r == contains_seq(s@, p@),
{
    if p.len() > s.len() {
        proof {
            assert forall|i: int| !occurs_at(s@, p@, i) by {}
        }
        return false;
    }
    let mut i: usize = 0;
    let last = s.len() - p.len();
    loop
        invariant
            p.len() <= s.len(),
            last == s.len() - p.len(),
            i <= last,
            forall|k: int| 0 <= k < i ==> !occurs_at(s@, p@, k),
        ensures
            forall|k: int| 0 <= k <= last ==> !occurs_at(s@, p@, k),
        decreases last - i,
    {
        if matches_at(s, p, i) {
            return true;
        }
        if i == last {
            break;
        }
        i = i + 1;
    }
    proof {
        assert forall|k: int| !occurs_at(s@, p@, k) by {
            if 0 <= k <= i {
            }
        }
    }
    false
}

} // verus!

verus! {

/// The separators of words: Unicode whitespace when `unicode`, else ASCII whitespace.
pub open spec fn is_sep(unicode: bool, c: char) -> bool {
    if unicode { is_ws(c) } else { is_ascii_ws(c) }
}

pub fn sep(unicode: bool, c: char) -> (r: bool)
    ensures
        r == is_sep(unicode, c),
{
    if unicode { is_whitespace(c) } else { is_ascii_whitespace(c) }
}

/// `w` is the word of `s` that starts at index `i`: a nonempty maximal run of non-separators.
pub open spec fn is_word_at(s: Seq<char>, w: Seq<char>, i: int, unicode: bool) -> bool {
    &&& w.len() > 0
    &&& occurs_at(s, w, i)
    &&& (i == 0 || is_sep(unicode, s[i - 1]))
    &&& (i + w.len() == s.len() || is_sep(unicode, s[i + w.len()]))
    &&& forall|k: int| 0 <= k < w.len() ==> !is_sep(unicode, #[trigger] w[k])
}

/// `w` is one of the words of `s`.
pub open spec fn has_word(s: Seq<char>, w: Seq<char>, unicode: bool) -> bool {
    exists|i: int| is_word_at(s, w, i, unicode)
}

/// Whether `w` is one of the separator-delimited words of `s`.
pub fn contains_word(s: &[char], w: &[char], unicode: bool) -> (r: bool)
    ensures
        r == has_word(s@, w@, unicode),
{
    let n = s.len();
    if w.len() == 0 {
        return false;
    }
    let mut i: usize = 0;
    while i < n
        invariant
            n == s.len(),
            w.len() > 0,
            i <= n,
            i == 0 || i == n || is_sep(unicode, s@[i - 1]),
            forall|k: int| 0 <= k < i ==> !is_word_at(s@, w@, k, unicode),
        decreases n - i,
    {
        if sep(unicode, s[i]) {
            proof {
                assert(!is_word_at(s@, w@, i as int, unicode)) by {
                    if is_word_at(s@, w@, i as int, unicode) {
                        assert(s@.subrange(i as int, i + w@.len())[0] == s@[i as int]);
                        assert(!is_sep(unicode, w@[0]));
                    }
                }
            }
            i = i + 1;
        } else {
            let mut j: usize = i;
            while j < n
                invariant
                    n == s.len(),
                    i <= j <= n,
                    forall|k: int| i <= k < j ==> !is_sep(unicode, s@[k]),
                ensures
                    i <= j <= n,
                    forall|k: int| i <= k < j ==> !is_sep(unicode, s@[k]),
                    j < n ==> is_sep(unicode, s@[j as int]),
                decreases n - j,
            {
                if sep(unicode, s[j]) {
                    break;
                }
                j = j + 1;
            }
            let found = j - i == w.len() && matches_at(s, w, i);
            proof {
                assert forall|k: int| i <= k < j || k == j && j < n implies (is_word_at(s@, w@, k, unicode) == (k == i && found)) by {
                    if k > i && k < j {
                        assert(!is_sep(unicode, s@[k - 1]));
                    } else if k == j && j < n && j > i {
                        if is_word_at(s@, w@, k, unicode) {
                            assert(s@.subrange(k, k + w@.len())[0] == s@[k]);
                            assert(!is_sep(unicode, w@[0]));
                        }
                    } else if k == i {
                        if is_word_at(s@, w@, k, unicode) {
                            let e = i + w@.len();
                            if e < j {
                                assert(!is_sep(unicode, s@[e]));
                            } else if e > j {
                                assert(s@.subrange(i as int, e)[j - i] == s@[j as int]);
                                assert(!is_sep(unicode, w@[j - i]));
                            }
                        }
                        if found {
                            assert forall|m: int| 0 <= m < w@.len() implies !is_sep(unicode, #[trigger] w@[m]) by {
                                assert(s@.subrange(i as int, i + w@.len())[m] == s@[i + m]);
                            }
                        }
                    }
                }
            }
            if found {
                proof {
                    assert(is_word_at(s@, w@, i as int, unicode));
                }
                return true;
            }
            if j < n {
                i = j + 1;
            } else {
                i = j;
            }
        }
    }
    proof {
        assert forall|k: int| !is_word_at(s@, w@, k, unicode) by {
            if 0 <= k < n {
            }
        }
    }
    false
}

} // verus!
