//! Markdown output: its options and the text rules that the serializer applies.
use vstd::prelude::*;
use crate::element::{views, nonempty, lemma_nonempty_push};
use crate::text::{chars_of, push_char, string_from, is_digit, is_alnum, is_ascii_ws, is_ascii_alphanumeric, is_ws, is_whitespace};

verus! {

/// The options of Markdown formatting.
#[derive(Clone, Copy, Debug)]
pub struct FormatOpts {
    pub include_node: bool,
    pub ignore_linebreak: bool,
    pub skip_escape: bool,
    pub offset: usize,
    pub br: bool,
    pub inline: bool,
}

impl Default for FormatOpts {
    fn default() -> (r: Self)
        ensures
            r == (FormatOpts {
                include_node: false,
                ignore_linebreak: false,
                skip_escape: false,
                offset: 0,
                br: false,
                inline: false,
            }),
    {
        FormatOpts {
            include_node: false,
            ignore_linebreak: false,
            skip_escape: false,
            offset: 0,
            br: false,
            inline: false,
        }
    }
}

impl FormatOpts {
    /// All flags off and no offset.
    pub fn new() -> (r: Self)
        ensures
            r == (FormatOpts {
                include_node: false,
                ignore_linebreak: false,
                skip_escape: false,
                offset: 0,
                br: false,
                inline: false,
            }),
    {
        Self::default()
    }

    /// The same options, with the node itself included in the output.
    pub fn include_node(self) -> (r: Self)
        ensures
            r == (FormatOpts { include_node: true, ..self }),
    {
        let mut s = self;
        s.include_node = true;
        s
    }

    /// The same options, with line breaks ignored.
    pub fn ignore_linebreak(self) -> (r: Self)
        ensures
            r == (FormatOpts { ignore_linebreak: true, ..self }),
    {
        let mut s = self;
        s.ignore_linebreak = true;
        s
    }

    /// The same options, with the given offset.
    pub fn offset(self, offset: usize) -> (r: Self)
        ensures
            r == (FormatOpts { offset: offset, ..self }),
    {
        let mut s = self;
        s.offset = offset;
        s
    }

    /// The same options, with escaping switched off.
    pub fn skip_escape(self) -> (r: Self)
        ensures
            r == (FormatOpts { skip_escape: true, ..self }),
    {
        let mut s = self;
        s.skip_escape = true;
        s
    }

    /// The same options, with line breaks written as `<br>`.
    pub fn br(self) -> (r: Self)
        ensures
            r == (FormatOpts { br: true, ..self }),
    {
        let mut s = self;
        s.br = true;
        s
    }

    /// The same options, in inline mode.
    pub fn inline(self) -> (r: Self)
        ensures
            r == (FormatOpts { inline: true, ..self }),
    {
        let mut s = self;
        s.inline = true;
        s
    }
}

/// The line break that the options ask for: `<br>` or a line feed.
pub fn linebreak(br: bool) -> (r: &'static str)
    ensures
        br ==> r@ == seq!['<', 'b', 'r', '>'],
        !br ==> r@ == seq!['\n'],
{
    if br {
        proof {
            reveal_strlit("<br>");
        }
        "<br>"
    } else {
        proof {
            reveal_strlit("\n");
        }
        "\n"
    }
}

// ---------------------------------------------------------------------------
// Backtick runs
// ---------------------------------------------------------------------------

/// `s[i..i + k]` is a run of backticks.
pub open spec fn is_tick_run(s: Seq<char>, i: int, k: int) -> bool {
    &&& 0 <= i
    &&& 0 <= k
    &&& i + k <= s.len()
    &&& forall|j: int| i <= j < i + k ==> s[j] == '`'
}

/// The length of the longest run of consecutive backticks in `text`: a code span
/// needs a longer fence than any run inside it.
pub fn max_backtick_run(text: &str) -> (r: usize)
    ensures
        exists|i: int| is_tick_run(text@, i, r as int),
        forall|i: int, k: int| is_tick_run(text@, i, k) ==> k <= r,
{
    let v = chars_of(text);
    let ghost s = v@;
    let mut max: usize = 0;
    let mut current: usize = 0;
    let mut p: usize = 0;
    let ghost mut wi: int = 0;
    while p < v.len()
        invariant
            s == v@,
            s == text@,
            p <= v.len(),
            current <= p,
            is_tick_run(s, p - current, current as int),
            p - current == 0 || s[p - current - 1] != '`',
            is_tick_run(s, wi, max as int),
            wi + max <= p,
            forall|i: int, k: int| is_tick_run(s, i, k) && i + k <= p ==> k <= max,
        decreases v.len() - p,
    {
        let c = v[p];
        if c == '`' {
            current = current + 1;
        } else {
            current = 0;
        }
        if current > max {
            max = current;
            proof {
                wi = p + 1 - current;
            }
        }
        p = p + 1;
        proof {
            assert forall|i: int, k: int| is_tick_run(s, i, k) && i + k <= p implies k <= max by {
                if k == 0 {
                } else if i + k == p {
                    assert(s[p - 1] == '`');
                    if i < p - current {
                        assert(s[p - current - 1] == '`');
                    }
                } else {
                    assert(is_tick_run(s, i, k) && i + k <= p - 1);
                }
            }
        }
    }
    max
}

// ---------------------------------------------------------------------------
// Image alt text and link destinations
// ---------------------------------------------------------------------------

/// `s` with a backslash before each square bracket.
pub open spec fn escape_brackets(s: Seq<char>) -> Seq<char>
    decreases s.len(),
{
    if s.len() == 0 {
        s
    } else {
        let c = s.last();
        escape_brackets(s.drop_last()) + (if c == '[' || c == ']' { seq!['\\', c] } else { seq![c] })
    }
}

/// The alt text of an image, with its square brackets escaped so that it cannot
/// end the `![...]` early.
pub fn md_image_alt(alt: &str) -> (r: String)
    ensures
        r@ == escape_brackets(alt@),
{
    let v = chars_of(alt);
    let mut out = String::new();
    let mut i: usize = 0;
    while i < v.len()
        invariant
            v@ == alt@,
            i <= v.len(),
            out@ == escape_brackets(v@.take(i as int)),
        decreases v.len() - i,
    {
        let c = v[i];
        if c == '[' || c == ']' {
            push_char(&mut out, '\\');
        }
        push_char(&mut out, c);
        i = i + 1;
        proof {
            assert(v@.take(i as int).drop_last() =~= v@.take(i - 1));
        }
    }
    proof {
        assert(v@.take(v.len() as int) =~= v@);
    }
    out
}

/// The number of `(` minus the number of `)` in `s`.
pub open spec fn paren_balance(s: Seq<char>) -> int
    decreases s.len(),
{
    if s.len() == 0 {
        0
    } else {
        paren_balance(s.drop_last()) + (if s.last() == '(' { 1int } else if s.last() == ')' { -1int } else { 0int })
    }
}

/// Character `k` of `s` forces angle brackets: a space, a line feed, a `<`, or a `)`
/// that closes more parentheses than were opened before it.
pub open spec fn forces_wrap(s: Seq<char>, k: int) -> bool {
    ||| s[k] == ' '
    ||| s[k] == '\n'
    ||| s[k] == '<'
    ||| (s[k] == ')' && paren_balance(s.take(k + 1)) < 0)
}

/// A destination that cannot stand bare inside `(...)`.
pub open spec fn needs_wrap(s: Seq<char>) -> bool {
    (exists|k: int| 0 <= k < s.len() && #[trigger] forces_wrap(s, k)) || paren_balance(s) != 0
}

/// The inside of an angle-wrapped destination: `<` and `>` escaped, line feeds
/// percent-encoded.
pub open spec fn wrap_escaped(s: Seq<char>) -> Seq<char>
    decreases s.len(),
{
    if s.len() == 0 {
        s
    } else {
        let c = s.last();
        wrap_escaped(s.drop_last()) + (if c == '<' {
            seq!['\\', '<']
        } else if c == '>' {
            seq!['\\', '>']
        } else if c == '\n' {
            seq!['%', '0', 'A']
        } else {
            seq![c]
        })
    }
}

/// The destination as Markdown writes it: bare where it can be, else wrapped in `<...>`.
pub open spec fn link_destination(s: Seq<char>) -> Seq<char> {
    if needs_wrap(s) {
        seq!['<'] + wrap_escaped(s) + seq!['>']
    } else {
        s
    }
}

/// Formats a link or image destination so that it survives as one destination.
pub fn md_link_destination(dest: &str) -> (r: String)
    ensures
        r@ == link_destination(dest@),
{
    let v = chars_of(dest);
    let ghost s = v@;
    let mut opens: usize = 0;
    let mut closes: usize = 0;
    let mut wrap = false;
    let mut i: usize = 0;
    proof {
        assert(s.take(s.len() as int) =~= s);
    }
    while i < v.len()
        invariant_except_break
            opens <= i,
            closes <= i,
            opens - closes == paren_balance(s.take(i as int)),
            !wrap,
            forall|k: int| 0 <= k < i ==> !#[trigger] forces_wrap(s, k),
        invariant
            s == v@,
            s == dest@,
            i <= v.len(),
            s.take(s.len() as int) == s,
        ensures
            wrap ==> needs_wrap(s),
            !wrap ==> i == s.len() && opens - closes == paren_balance(s) && forall|k: int| 0 <= k < s.len() ==> !#[trigger] forces_wrap(s, k),
        decreases v.len() - i,
    {
        let c = v[i];
        proof {
            assert(s.take(i + 1).drop_last() =~= s.take(i as int));
            assert(s.take(i + 1).last() == c);
        }
        if c == '(' {
            opens = opens + 1;
        } else if c == ')' {
            closes = closes + 1;
            if opens < closes {
                proof {
                    assert(forces_wrap(s, i as int));
                }
                wrap = true;
                break;
            }
        } else if c == ' ' || c == '\n' || c == '<' {
            proof {
                assert(forces_wrap(s, i as int));
            }
            wrap = true;
            break;
        }
        i = i + 1;
        proof {
            if i == s.len() {
                assert(s.take(i as int) =~= s);
            }
        }
    }
    if !wrap {
        if opens == closes {
            proof {
                assert(!needs_wrap(s));
            }
            return string_from(v.as_slice());
        }
    }
    let mut out = String::new();
    push_char(&mut out, '<');
    let mut j: usize = 0;
    while j < v.len()
        invariant
            s == v@,
            needs_wrap(s),
            j <= v.len(),
            out@ == seq!['<'] + wrap_escaped(s.take(j as int)),
        decreases v.len() - j,
    {
        let c = v[j];
        if c == '<' {
            push_char(&mut out, '\\');
            push_char(&mut out, '<');
        } else if c == '>' {
            push_char(&mut out, '\\');
            push_char(&mut out, '>');
        } else if c == '\n' {
            push_char(&mut out, '%');
            push_char(&mut out, '0');
            push_char(&mut out, 'A');
        } else {
            push_char(&mut out, c);
        }
        j = j + 1;
        proof {
            assert(s.take(j as int).drop_last() =~= s.take(j - 1));
            assert(out@ =~= seq!['<'] + wrap_escaped(s.take(j as int)));
        }
    }
    push_char(&mut out, '>');
    proof {
        assert(s.take(s.len() as int) =~= s);
    }
    out
}

// ---------------------------------------------------------------------------
// Line starts and list markers
// ---------------------------------------------------------------------------

/// `s` is an ordered-list marker: one or more ASCII digits, then `.` or `)`.
pub open spec fn is_list_marker(s: Seq<char>) -> bool {
    &&& s.len() >= 2
    &&& (s.last() == '.' || s.last() == ')')
    &&& forall|i: int| 0 <= i < s.len() - 1 ==> is_digit(#[trigger] s[i])
}

/// Whether `chunk` is an ordered-list marker like `3.` or `12)`, which at the
/// beginning of a line would turn the line into a list item.
pub fn is_ordered_list_marker(chunk: &str) -> (r: bool)
    ensures
        r == is_list_marker(chunk@),
{
    let v = chars_of(chunk);
    chars_are_list_marker(&v)
}

fn chars_are_list_marker(v: &Vec<char>) -> (r: bool)
    ensures
        r == is_list_marker(v@),
{
    let n = v.len();
    if n < 2 {
        return false;
    }
    let last = v[n - 1];
    if last != '.' && last != ')' {
        return false;
    }
    let mut i: usize = 0;
    while i < n - 1
        invariant
            n == v.len(),
            n >= 2,
            i <= n - 1,
            forall|j: int| 0 <= j < i ==> is_digit(#[trigger] v@[j]),
        decreases n - 1 - i,
    {
        if !('0' <= v[i] && v[i] <= '9') {
            proof {
                assert(!is_digit(v@[i as int]));
            }
            return false;
        }
        i = i + 1;
    }
    true
}

/// The text after the last line feed of `s`.
pub open spec fn last_line(s: Seq<char>) -> Seq<char>
    decreases s.len(),
{
    if s.len() == 0 {
        s
    } else if s.last() == '\n' {
        Seq::empty()
    } else {
        last_line(s.drop_last()).push(s.last())
    }
}

/// The number of leading spaces of `s`.
pub open spec fn lead_spaces(s: Seq<char>) -> nat
    decreases s.len(),
{
    if s.len() > 0 && s[0] == ' ' { 1 + lead_spaces(s.drop_first()) } else { 0 }
}

/// The current line of `s` holds only indentation, optionally followed by a list
/// marker and one space (`- `, `+ `, `12. `).
pub open spec fn block_start(s: Seq<char>) -> bool {
    let line = last_line(s);
    let rest = line.skip(lead_spaces(line) as int);
    ||| rest.len() == 0
    ||| (rest.last() == ' ' && {
        let m = rest.drop_last();
        m == seq!['-'] || m == seq!['+'] || is_list_marker(m)
    })
}

proof fn lemma_last_line(s: Seq<char>, j: int)
    requires
        0 <= j <= s.len(),
        j == 0 || s[j - 1] == '\n',
        forall|k: int| j <= k < s.len() ==> s[k] != '\n',
    ensures
        last_line(s) == s.skip(j),
    decreases s.len(),
{
    if s.len() > 0 {
        if j == s.len() {
            assert(s.skip(j) =~= Seq::<char>::empty());
        } else {
            lemma_last_line(s.drop_last(), j);
            assert(s.skip(j) =~= s.drop_last().skip(j).push(s.last()));
        }
    }
}

proof fn lemma_lead_spaces(s: Seq<char>, k: int)
    requires
        0 <= k <= s.len(),
        forall|i: int| 0 <= i < k ==> s[i] == ' ',
        k == s.len() || s[k] != ' ',
    ensures
        lead_spaces(s) == k,
    decreases k,
{
    if k > 0 {
        lemma_lead_spaces(s.drop_first(), k - 1);
    }
}

/// True when the current line of `text` holds only indentation, optionally followed
/// by a list marker opened on this line: block syntax is significant there.
pub fn at_block_start(text: &str) -> (r: bool)
    ensures
        r == block_start(text@),
{
    let v = chars_of(text);
    let ghost s = v@;
    let n = v.len();
    let mut j: usize = n;
    while j > 0 && v[j - 1] != '\n'
        invariant
            s == v@,
            n == v.len(),
            j <= n,
            forall|k: int| j <= k < n ==> s[k] != '\n',
        decreases j,
    {
        j = j - 1;
    }
    proof {
        lemma_last_line(s, j as int);
    }
    let ghost line = s.skip(j as int);
    let mut a: usize = j;
    while a < n && v[a] == ' '
        invariant
            s == v@,
            n == v.len(),
            j <= a <= n,
            forall|k: int| j <= k < a ==> s[k] == ' ',
        decreases n - a,
    {
        a = a + 1;
    }
    proof {
        lemma_lead_spaces(line, a - j);
        assert(line.skip(a - j) =~= s.skip(a as int));
    }
    if a == n {
        return true;
    }
    if v[n - 1] != ' ' {
        return false;
    }
    let ghost m = s.subrange(a as int, n - 1);
    proof {
        assert(s.skip(a as int).drop_last() =~= m);
    }
    if a + 2 == n && (v[a] == '-' || v[a] == '+') {
        proof {
            if v[a as int] == '-' {
                assert(m =~= seq!['-']);
            } else {
                assert(m =~= seq!['+']);
            }
        }
        return true;
    }
    let mut mv: Vec<char> = Vec::new();
    let mut i: usize = a;
    while i < n - 1
        invariant
            s == v@,
            n == v.len(),
            a < n,
            a <= i <= n - 1,
            mv@ == s.subrange(a as int, i as int),
        decreases n - 1 - i,
    {
        mv.push(v[i]);
        i = i + 1;
        proof {
            assert(mv@ =~= s.subrange(a as int, i as int));
        }
    }
    proof {
        if m =~= seq!['-'] || m =~= seq!['+'] {
            assert(a + 2 == n);
            assert(m[0] == v[a as int]);
        }
    }
    chars_are_list_marker(&mv)
}

// ---------------------------------------------------------------------------
// Attribute values
// ---------------------------------------------------------------------------

/// The number of leading ASCII whitespace characters of `s`.
pub open spec fn lead_ascii_ws(s: Seq<char>) -> nat
    decreases s.len(),
{
    if s.len() > 0 && is_ascii_ws(s[0]) { 1 + lead_ascii_ws(s.drop_first()) } else { 0 }
}

/// The number of leading characters of `s` that are not ASCII whitespace.
pub open spec fn word_len(s: Seq<char>) -> nat
    decreases s.len(),
{
    if s.len() > 0 && !is_ascii_ws(s[0]) { 1 + word_len(s.drop_first()) } else { 0 }
}

/// The first token of `s` between ASCII whitespace (empty if there is none).
pub open spec fn first_token(s: Seq<char>) -> Seq<char> {
    let r = s.skip(lead_ascii_ws(s) as int);
    r.take(word_len(r) as int)
}

/// The characters that an attribute value keeps.
pub open spec fn attr_safe(c: char) -> bool {
    is_alnum(c) || c == '-' || c == '_' || c == '+' || c == '.' || c == '#'
}

proof fn lemma_lead_ascii_ws(s: Seq<char>, k: int)
    requires
        0 <= k <= s.len(),
        forall|i: int| 0 <= i < k ==> is_ascii_ws(s[i]),
        k == s.len() || !is_ascii_ws(s[k]),
    ensures
        lead_ascii_ws(s) == k,
    decreases k,
{
    if k > 0 {
        lemma_lead_ascii_ws(s.drop_first(), k - 1);
    }
}

proof fn lemma_word_len(s: Seq<char>, k: int)
    requires
        0 <= k <= s.len(),
        forall|i: int| 0 <= i < k ==> !is_ascii_ws(s[i]),
        k == s.len() || is_ascii_ws(s[k]),
    ensures
        word_len(s) == k,
    decreases k,
{
    if k > 0 {
        lemma_word_len(s.drop_first(), k - 1);
    }
}

proof fn lemma_filter_push(s: Seq<char>, c: char)
    ensures
        s.push(c).filter(|x: char| attr_safe(x)) == (if attr_safe(c) {
            s.filter(|x: char| attr_safe(x)).push(c)
        } else {
            s.filter(|x: char| attr_safe(x))
        }),
{
    reveal(Seq::filter);
    assert(s.push(c).drop_last() =~= s);
}

/// Keeps only the first whitespace-delimited token of `raw` and, of it, a
/// conservative set of characters.
pub fn sanitize_attr_value(raw: &str) -> (r: String)
    ensures
        r@ == first_token(raw@).filter(|x: char| attr_safe(x)),
{
    let v = chars_of(raw);
    let ghost s = v@;
    let n = v.len();
    let mut a: usize = 0;
    while a < n && (v[a] == ' ' || v[a] == '\t' || v[a] == '\n' || v[a] == '\x0C' || v[a] == '\r')
        invariant
            s == v@,
            n == v.len(),
            a <= n,
            forall|k: int| 0 <= k < a ==> is_ascii_ws(s[k]),
        decreases n - a,
    {
        a = a + 1;
    }
    proof {
        lemma_lead_ascii_ws(s, a as int);
    }
    let ghost rest = s.skip(a as int);
    let mut b: usize = a;
    let mut out = String::new();
    while b < n && !(v[b] == ' ' || v[b] == '\t' || v[b] == '\n' || v[b] == '\x0C' || v[b] == '\r')
        invariant
            s == v@,
            n == v.len(),
            a <= b <= n,
            rest == s.skip(a as int),
            forall|k: int| a <= k < b ==> !is_ascii_ws(s[k]),
            out@ == s.subrange(a as int, b as int).filter(|x: char| attr_safe(x)),
        decreases n - b,
    {
        let c = v[b];
        proof {
            lemma_filter_push(s.subrange(a as int, b as int), c);
            assert(s.subrange(a as int, b + 1) =~= s.subrange(a as int, b as int).push(c));
        }
        if is_ascii_alphanumeric(c) || c == '-' || c == '_' || c == '+' || c == '.' || c == '#' {
            push_char(&mut out, c);
        }
        b = b + 1;
    }
    proof {
        lemma_word_len(rest, b - a);
        assert(rest.take(b - a) =~= s.subrange(a as int, b as int));
    }
    out
}

// ---------------------------------------------------------------------------
// Escaping
// ---------------------------------------------------------------------------

/// Characters with a Markdown meaning anywhere in a line.
pub open spec fn always_escaped(c: char) -> bool {
    c == '\\' || c == '`' || c == '*' || c == '_' || c == '[' || c == ']' || c == '<' || c == '|' || c == '"'
}

/// Characters with a Markdown meaning at the start of a line.
pub open spec fn line_start_escaped(c: char) -> bool {
    c == '#' || c == '>' || c == '-' || c == '+'
}

pub open spec fn all_hashes(s: Seq<char>) -> bool {
    forall|i: int| 0 <= i < s.len() ==> #[trigger] s[i] == '#'
}

/// Character `i` of the chunk `s` gets a backslash before it.
pub open spec fn escapes_at(s: Seq<char>, i: int, line_start: bool) -> bool {
    let c = s[i];
    if always_escaped(c) {
        true
    } else if line_start_escaped(c) {
        i == 0 && (line_start || (c == '#' && all_hashes(s)))
    } else if c == '!' {
        i + 1 < s.len() && s[i + 1] == '['
    } else if c == '.' || c == ')' {
        line_start && is_list_marker(s)
    } else {
        false
    }
}

/// The first `k` characters of the chunk `s`, each with its backslash where it needs one.
pub open spec fn escaped_prefix(s: Seq<char>, line_start: bool, k: int) -> Seq<char>
    decreases k,
{
    if k <= 0 {
        Seq::empty()
    } else {
        escaped_prefix(s, line_start, k - 1) + (if escapes_at(s, k - 1, line_start) {
            seq!['\\', s[k - 1]]
        } else {
            seq![s[k - 1]]
        })
    }
}

/// The chunk as it is written: escaped, or as it is where escaping is off.
pub open spec fn escaped_chunk(s: Seq<char>, escape: bool, line_start: bool) -> Seq<char> {
    if escape { escaped_prefix(s, line_start, s.len() as int) } else { s }
}

fn chars_all_hashes(v: &Vec<char>) -> (r: bool)
    ensures
        r == all_hashes(v@),
{
    let mut i: usize = 0;
    while i < v.len()
        invariant
            i <= v.len(),
            forall|j: int| 0 <= j < i ==> #[trigger] v@[j] == '#',
        decreases v.len() - i,
    {
        if v[i] != '#' {
            return false;
        }
        i = i + 1;
    }
    true
}

/// Appends `chunk` to `text`, with a backslash before each character that would
/// otherwise have a Markdown meaning there.
pub fn push_escaped_chunk(text: &mut String, chunk: &str, escape: bool, line_start: bool)
    ensures
        final(text)@ == old(text)@ + escaped_chunk(chunk@, escape, line_start),
{
    let v = chars_of(chunk);
    push_escaped_chars(text, &v, escape, line_start);
}

fn push_escaped_chars(text: &mut String, v: &Vec<char>, escape: bool, line_start: bool)
    ensures
        final(text)@ == old(text)@ + escaped_chunk(v@, escape, line_start),
{
    let ghost s = v@;
    if !escape {
        let mut i: usize = 0;
        while i < v.len()
            invariant
                s == v@,
                i <= v.len(),
                text@ == old(text)@ + s.take(i as int),
            decreases v.len() - i,
        {
            push_char(text, v[i]);
            i = i + 1;
            proof {
                assert(s.take(i as int) =~= s.take(i - 1).push(s[i - 1]));
            }
        }
        proof {
            assert(s.take(s.len() as int) =~= s);
        }
        return;
    }
    let list_marker = line_start && chars_are_list_marker(v);
    let hashes = chars_all_hashes(v);
    let n = v.len();
    let mut i: usize = 0;
    while i < n
        invariant
            s == v@,
            n == v.len(),
            i <= n,
            list_marker == (line_start && is_list_marker(s)),
            hashes == all_hashes(s),
            text@ == old(text)@ + escaped_prefix(s, line_start, i as int),
        decreases n - i,
    {
        let c = v[i];
        let escaped = if c == '\\' || c == '`' || c == '*' || c == '_' || c == '[' || c == ']' || c == '<' || c == '|' || c == '"' {
            true
        } else if c == '#' || c == '>' || c == '-' || c == '+' {
            i == 0 && (line_start || (c == '#' && hashes))
        } else if c == '!' {
            i + 1 < n && v[i + 1] == '['
        } else if c == '.' || c == ')' {
            list_marker
        } else {
            false
        };
        proof {
            assert(escaped == escapes_at(s, i as int, line_start));
        }
        if escaped {
            push_char(text, '\\');
        }
        push_char(text, c);
        i = i + 1;
        proof {
            assert(text@ =~= old(text)@ + escaped_prefix(s, line_start, i as int));
        }
    }
}

// ---------------------------------------------------------------------------
// Words and normalized text
// ---------------------------------------------------------------------------

/// The pieces of `s` between whitespace characters, empty ones included.
pub open spec fn ws_pieces(s: Seq<char>) -> Seq<Seq<char>>
    decreases s.len(),
{
    if s.len() == 0 {
        seq![Seq::<char>::empty()]
    } else {
        let r = ws_pieces(s.drop_last());
        if is_ws(s.last()) {
            r.push(Seq::<char>::empty())
        } else {
            r.update(r.len() - 1, r.last().push(s.last()))
        }
    }
}

/// The words of `s`: its maximal runs of characters that are not whitespace.
pub open spec fn words(s: Seq<char>) -> Seq<Seq<char>> {
    nonempty(ws_pieces(s))
}

proof fn lemma_ws_pieces_len(s: Seq<char>)
    ensures
        ws_pieces(s).len() >= 1,
    decreases s.len(),
{
    if s.len() > 0 {
        lemma_ws_pieces_len(s.drop_last());
    }
}

/// The words of `s`, in order.
pub fn split_words(s: &Vec<char>) -> (r: Vec<Vec<char>>)
    ensures
        views(r@) == words(s@),
{
    let mut done: Vec<Vec<char>> = Vec::new();
    let mut cur: Vec<char> = Vec::new();
    let mut i: usize = 0;
    proof {
        assert(s@.take(0) =~= Seq::<char>::empty());
        assert(ws_pieces(s@.take(0)).drop_last() =~= Seq::<Seq<char>>::empty());
        reveal(Seq::filter);
        assert(nonempty(Seq::<Seq<char>>::empty()) =~= Seq::<Seq<char>>::empty());
        assert(views(done@) =~= Seq::<Seq<char>>::empty());
    }
    while i < s.len()
        invariant
            i <= s.len(),
            views(done@) == nonempty(ws_pieces(s@.take(i as int)).drop_last()),
            cur@ == ws_pieces(s@.take(i as int)).last(),
        decreases s.len() - i,
    {
        let c = s[i];
        let ghost pre = s@.take(i as int);
        proof {
            assert(s@.take(i + 1).drop_last() =~= pre);
            assert(s@.take(i + 1).last() == c);
            lemma_ws_pieces_len(pre);
        }
        let ghost w = ws_pieces(pre);
        if is_whitespace(c) {
            if cur.len() > 0 {
                let ghost old_done = views(done@);
                done.push(cur);
                proof {
                    assert(views(done@) =~= old_done.push(w.last()));
                }
            }
            cur = Vec::new();
            proof {
                assert(w =~= w.drop_last().push(w.last()));
                lemma_nonempty_push(w.drop_last(), w.last());
                assert(ws_pieces(s@.take(i + 1)).drop_last() =~= w);
            }
        } else {
            cur.push(c);
            proof {
                assert(ws_pieces(s@.take(i + 1)).drop_last() =~= w.drop_last());
            }
        }
        i = i + 1;
    }
    proof {
        assert(s@.take(s.len() as int) =~= s@);
        lemma_ws_pieces_len(s@);
        let w = ws_pieces(s@);
        assert(w =~= w.drop_last().push(w.last()));
        lemma_nonempty_push(w.drop_last(), w.last());
    }
    if cur.len() > 0 {
        let ghost old_done = views(done@);
        done.push(cur);
        proof {
            assert(views(done@) =~= old_done.push(ws_pieces(s@).last()));
        }
    }
    done
}

/// The words after the first, each after one space.
pub open spec fn rest_words(ws: Seq<Seq<char>>, escape: bool, k: int) -> Seq<char>
    decreases k,
{
    if k <= 1 {
        Seq::empty()
    } else {
        rest_words(ws, escape, k - 1) + seq![' '] + escaped_chunk(ws[k - 1], escape, false)
    }
}

/// The text ends a line or a word, or is empty.
pub open spec fn follows_newline(t: Seq<char>) -> bool {
    t.len() == 0 || t.last() == '\n' || t.last() == ' '
}

/// The words of `new` joined by single spaces, escaped, with a leading space where
/// `new` starts with whitespace in the middle of a line.
pub open spec fn normalized_piece(t: Seq<char>, new: Seq<char>, escape: bool) -> Seq<char> {
    let ws = words(new);
    if ws.len() == 0 {
        Seq::empty()
    } else {
        (if !follows_newline(t) && new.len() > 0 && is_ws(new[0]) { seq![' '] } else { Seq::empty() })
            + escaped_chunk(ws[0], escape, block_start(t)) + rest_words(ws, escape, ws.len() as int)
    }
}

/// `t` after `new` was appended to it with its whitespace normalized.
pub open spec fn normalized_text(t: Seq<char>, new: Seq<char>, escape: bool) -> Seq<char> {
    let r = normalized_piece(t, new, escape);
    if r.len() == 0 && follows_newline(t) {
        t
    } else {
        let u = t + r;
        if new.len() > 0 && is_ws(new.last()) && !(u.len() > 0 && is_ws(u.last())) {
            u.push(' ')
        } else {
            u
        }
    }
}

/// Appends `new_text` to `text` with each run of whitespace collapsed to one space.
/// A leading space is kept only where the text does not already end a line or a
/// word, and a trailing one where `new_text` ends with whitespace.
pub fn push_normalized_text(text: &mut String, new_text: &str, escape: bool)
    ensures
        final(text)@ == normalized_text(old(text)@, new_text@, escape),
{
    let tv = chars_of(text.as_str());
    let tl = tv.len();
    let follows = tl == 0 || tv[tl - 1] == '\n' || tv[tl - 1] == ' ';
    let is_line_start = at_block_start(text.as_str());
    let nv = chars_of(new_text);
    let push_start = !follows && nv.len() > 0 && is_whitespace(nv[0]);
    let push_end = nv.len() > 0 && is_whitespace(nv[nv.len() - 1]);
    let ws = split_words(&nv);
    let ghost wsv = views(ws@);
    let mut result = String::new();
    if ws.len() > 0 {
        if push_start {
            push_char(&mut result, ' ');
        }
        push_escaped_chars(&mut result, &ws[0], escape, is_line_start);
        let mut k: usize = 1;
        while k < ws.len()
            invariant
                1 <= k <= ws.len(),
                wsv == views(ws@),
                result@ == (if push_start { seq![' '] } else { Seq::<char>::empty() })
                    + escaped_chunk(wsv[0], escape, is_line_start) + rest_words(wsv, escape, k as int),
            decreases ws.len() - k,
        {
            push_char(&mut result, ' ');
            push_escaped_chars(&mut result, &ws[k], escape, false);
            k = k + 1;
            proof {
                assert(wsv[k - 1] == ws@[k - 1]@);
                assert(result@ =~= (if push_start { seq![' '] } else { Seq::<char>::empty() })
                    + escaped_chunk(wsv[0], escape, is_line_start) + rest_words(wsv, escape, k as int));
            }
        }
    }
    proof {
        assert(result@ == normalized_piece(tv@, nv@, escape));
    }
    let rv = chars_of(result.as_str());
    if rv.len() == 0 && follows {
        return;
    }
    let mut i: usize = 0;
    while i < rv.len()
        invariant
            i <= rv.len(),
            text@ == tv@ + rv@.take(i as int),
        decreases rv.len() - i,
    {
        push_char(text, rv[i]);
        i = i + 1;
        proof {
            assert(rv@.take(i as int) =~= rv@.take(i - 1).push(rv@[i - 1]));
        }
    }
    proof {
        assert(rv@.take(rv.len() as int) =~= rv@);
    }
    let ends_ws = if rv.len() > 0 { is_whitespace(rv[rv.len() - 1]) } else { tl > 0 && is_whitespace(tv[tl - 1]) };
    proof {
        let u = tv@ + rv@;
        if rv.len() > 0 {
            assert(u.last() == rv@.last());
        } else {
            assert(u =~= tv@);
        }
        assert(ends_ws == (u.len() > 0 && is_ws(u.last())));
    }
    if push_end && !ends_ws {
        push_char(text, ' ');
    }
}

// ---------------------------------------------------------------------------
// Trailing spaces, joins, line breaks
// ---------------------------------------------------------------------------

/// The number of trailing spaces of `s`.
pub open spec fn trail_spaces(s: Seq<char>) -> nat
    decreases s.len(),
{
    if s.len() > 0 && s.last() == ' ' { 1 + trail_spaces(s.drop_last()) } else { 0 }
}

/// `s` without its trailing spaces.
pub open spec fn trim_right_spaces(s: Seq<char>) -> Seq<char> {
    s.take(s.len() - trail_spaces(s))
}

proof fn lemma_trail_spaces(s: Seq<char>, k: int)
    requires
        0 <= k <= s.len(),
        forall|i: int| s.len() - k <= i < s.len() ==> s[i] == ' ',
        k == s.len() || s[s.len() - k - 1] != ' ',
    ensures
        trail_spaces(s) == k,
    decreases k,
{
    if k > 0 {
        lemma_trail_spaces(s.drop_last(), k - 1);
    }
}

/// Removes the trailing spaces of `s`.
pub fn trim_right_space(s: &mut String)
    ensures
        final(s)@ == trim_right_spaces(old(s)@),
{
    let v = chars_of(s.as_str());
    let n = v.len();
    let mut k: usize = n;
    while k > 0 && v[k - 1] == ' '
        invariant
            k <= n,
            n == v.len(),
            forall|i: int| k <= i < n ==> v@[i] == ' ',
        decreases k,
    {
        k = k - 1;
    }
    proof {
        lemma_trail_spaces(v@, n - k);
    }
    let mut out = String::new();
    let mut i: usize = 0;
    while i < k
        invariant
            k <= n,
            n == v.len(),
            i <= k,
            out@ == v@.take(i as int),
        decreases k - i,
    {
        push_char(&mut out, v[i]);
        i = i + 1;
        proof {
            assert(v@.take(i as int) =~= v@.take(i - 1).push(v@[i - 1]));
        }
    }
    *s = out;
}

/// The strings of `ss` joined by `sep`.
pub open spec fn join_with(ss: Seq<Seq<char>>, sep: Seq<char>) -> Seq<char>
    decreases ss.len(),
{
    if ss.len() == 0 {
        Seq::empty()
    } else if ss.len() == 1 {
        ss[0]
    } else {
        join_with(ss.drop_last(), sep) + sep + ss.last()
    }
}

pub open spec fn string_views(v: Seq<String>) -> Seq<Seq<char>> {
    v.map_values(|s: String| s@)
}

/// Joins the strings with the separator between each two of them.
pub fn join_strings(seq: &Vec<String>, sep: &str) -> (r: String)
    ensures
        r@ == join_with(string_views(seq@), sep@),
{
    let mut result = String::new();
    let mut i: usize = 0;
    while i < seq.len()
        invariant
            i <= seq.len(),
            result@ == join_with(string_views(seq@.take(i as int)), sep@),
        decreases seq.len() - i,
    {
        if i > 0 {
            crate::text::push_str(&mut result, sep);
        }
        crate::text::push_str(&mut result, seq[i].as_str());
        i = i + 1;
        proof {
            let a = string_views(seq@.take(i as int));
            assert(a.drop_last() =~= string_views(seq@.take(i - 1)));
            assert(a.last() == seq@[i - 1]@);
            if i == 1 {
                assert(result@ =~= a[0]);
            }
        }
    }
    proof {
        assert(seq@.take(seq.len() as int) =~= seq@);
    }
    result
}

/// `t` followed by as many line breaks as it takes to end with `end`, which is two
/// line breaks: none, one or two.
pub open spec fn with_linebreaks(t: Seq<char>, lb: Seq<char>, end: Seq<char>) -> Seq<char> {
    if crate::text::ends_with(t, end) {
        t
    } else if crate::text::ends_with(t + lb, end) {
        t + lb
    } else {
        t + lb + lb
    }
}

/// Removes trailing spaces, then appends line breaks until the text ends with `end`.
pub fn add_linebreaks(text: &mut String, linebreak: &str, end: &str)
    requires
        end@ == linebreak@ + linebreak@,
    ensures
        final(text)@ == with_linebreaks(trim_right_spaces(old(text)@), linebreak@, end@),
{
    trim_right_space(text);
    let ev = chars_of(end);
    let tv = chars_of(text.as_str());
    if crate::text::chars_ends_with(tv.as_slice(), ev.as_slice()) {
        return;
    }
    crate::text::push_str(text, linebreak);
    let tv = chars_of(text.as_str());
    if crate::text::chars_ends_with(tv.as_slice(), ev.as_slice()) {
        return;
    }
    crate::text::push_str(text, linebreak);
}

// ---------------------------------------------------------------------------
// Ordered lists
// ---------------------------------------------------------------------------

/// The largest number that an ordered-list marker gets.
pub const MAX_LIST_NUMBER: u64 = 999_999_999;

/// The state of the list being written.
pub struct ListContext<'a> {
    pub opts: FormatOpts,
    pub linebreak: &'a str,
    pub indent: &'a str,
    pub prefix: String,
    /// Marker number of the next `<li>` for ordered lists; `ul` is `None`.
    pub next_number: Option<u64>,
}

/// The decimal digits of `n`.
pub open spec fn decimal(n: u64) -> Seq<char>
    decreases n,
{
    if n < 10 {
        seq![(n + 48) as char]
    } else {
        decimal(n / 10).push(((n % 10) + 48) as char)
    }
}

/// The decimal digits of a number.
pub fn decimal_string(n: u64) -> (r: String)
    ensures
        r@ == decimal(n),
    decreases n,
{
    let d: u8 = (n % 10) as u8;
    let c: char = (d + 48) as char;
    if n < 10 {
        let mut s = String::new();
        push_char(&mut s, c);
        s
    } else {
        let mut s = decimal_string(n / 10);
        push_char(&mut s, c);
        s
    }
}

/// Writes the marker of the current item into the prefix and advances the counter,
/// which stops at [`MAX_LIST_NUMBER`]. Lists without numbers are left as they are.
pub fn advance_list_number(ctx: &mut ListContext)
    ensures
        match old(ctx).next_number {
            Some(n) => {
                &&& final(ctx).prefix@ == decimal(n) + seq!['.', ' ']
                &&& final(ctx).next_number == Some(if n < MAX_LIST_NUMBER { (n + 1) as u64 } else { MAX_LIST_NUMBER })
            },
            None => final(ctx).prefix == old(ctx).prefix && final(ctx).next_number.is_none(),
        },
        final(ctx).opts == old(ctx).opts,
        final(ctx).linebreak == old(ctx).linebreak,
        final(ctx).indent == old(ctx).indent,
{
    if let Some(n) = ctx.next_number {
        let mut p = decimal_string(n);
        push_char(&mut p, '.');
        push_char(&mut p, ' ');
        ctx.prefix = p;
        ctx.next_number = Some(if n < MAX_LIST_NUMBER { n + 1 } else { MAX_LIST_NUMBER });
    }
}

} // verus!
