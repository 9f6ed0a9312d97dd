//! Text helpers: indentation, trailing newlines, trimming, and the
//! conversions between `str` and the character vectors the rules work on.
use vstd::prelude::*;

verus! {

/// The indentation of `n` levels: `n` tab characters.
pub open spec fn tabs(n: nat) -> Seq<char>
    decreases n,
{
    if n == 0 {
        Seq::empty()
    } else {
        tabs((n - 1) as nat).push('\t')
    }
}

/// `s` without its trailing run of newline characters.
pub open spec fn strip_trailing_newlines(s: Seq<char>) -> Seq<char>
    decreases s.len(),
{
    if s.len() > 0 && s.last() == '\n' {
        strip_trailing_newlines(s.drop_last())
    } else {
        s
    }
}

/// `s` with its trailing run of newlines replaced by exactly one newline.
pub open spec fn with_one_end_line(s: Seq<char>) -> Seq<char> {
    strip_trailing_newlines(s).push('\n')
}

/// `s` ends with one newline character and not with two.
pub open spec fn ends_with_single_newline(s: Seq<char>) -> bool {
    &&& s.len() > 0
    &&& s.last() == '\n'
    &&& (s.len() == 1 || s[s.len() - 2] != '\n')
}

/// The whitespace that trimming removes: the characters with the Unicode
/// `White_Space` property, as `char::is_whitespace` and `str::trim` take them.
pub open spec fn is_space(c: char) -> bool {
    ('\t' <= c && c <= '\r') || c == ' ' || c == '\u{85}' || c == '\u{a0}' || c == '\u{1680}'
        || ('\u{2000}' <= c && c <= '\u{200a}') || c == '\u{2028}' || c == '\u{2029}'
        || c == '\u{202f}' || c == '\u{205f}' || c == '\u{3000}'
}

/// `s` without its leading whitespace.
pub open spec fn trim_start(s: Seq<char>) -> Seq<char>
    decreases s.len(),
{
    if s.len() > 0 && is_space(s[0]) {
        trim_start(s.drop_first())
    } else {
        s
    }
}

/// `s` without its trailing whitespace.
pub open spec fn trim_end(s: Seq<char>) -> Seq<char>
    decreases s.len(),
{
    if s.len() > 0 && is_space(s.last()) {
        trim_end(s.drop_last())
    } else {
        s
    }
}

/// `s` without leading and trailing whitespace.
pub open spec fn trim(s: Seq<char>) -> Seq<char> {
    trim_end(trim_start(s))
}

/// The characters of `s`, in order.
pub fn chars_of(s: &str) -> (r: Vec<char>)
    ensures
        r@ == s@,
{
    let mut r: Vec<char> = Vec::new();
    for c in it: s.chars()
        invariant
            r@ == it.seq().subrange(0, it.index() as int),
    {
        r.push(c);
    }
    assert(r@ =~= s@);
    r
}

/// Relies on `String::push`: the character is appended to the string.
#[verifier::external_body]
fn push_char(s: &mut String, c: char)
    ensures
        final(s)@ == old(s)@.push(c),
{
    s.push(c);
}

/// The string made of the characters of `v`, in order.
pub fn string_of(v: &Vec<char>) -> (r: String)
    ensures
        r@ == v@,
{
    let mut r = String::new();
    let mut i: usize = 0;
    while i < v.len()
        invariant
            i <= v.len(),
            r@ =~= v@.subrange(0, i as int),
        decreases v.len() - i,
    {
        push_char(&mut r, v[i]);
        i = i + 1;
        assert(r@ =~= v@.subrange(0, i as int));
    }
    r
}

proof fn lemma_strip_idempotent(s: Seq<char>)
    ensures
        strip_trailing_newlines(strip_trailing_newlines(s)) == strip_trailing_newlines(s),
        strip_trailing_newlines(s).len() == 0 || strip_trailing_newlines(s).last() != '\n',
    decreases s.len(),
{
    if s.len() > 0 && s.last() == '\n' {
        lemma_strip_idempotent(s.drop_last());
    }
}

/// Whatever the text, it ends with exactly one newline once its trailing
/// newlines are collapsed.
pub proof fn lemma_one_end_line(s: Seq<char>)
    ensures
        ends_with_single_newline(with_one_end_line(s)),
        with_one_end_line(with_one_end_line(s)) == with_one_end_line(s),
{
    lemma_strip_idempotent(s);
    let t = strip_trailing_newlines(s);
    let u = t.push('\n');
    assert(u.drop_last() =~= t);
    assert(strip_trailing_newlines(u) == strip_trailing_newlines(t));
}

/// Collapses the trailing run of newlines of `buffer` to exactly one newline.
pub fn end_with_one_newline(buffer: &mut Vec<char>)
    ensures
        final(buffer)@ == with_one_end_line(old(buffer)@),
{
    while buffer.len() > 0 && buffer[buffer.len() - 1] == '\n'
        invariant
            strip_trailing_newlines(buffer@) == strip_trailing_newlines(old(buffer)@),
        decreases buffer.len(),
    {
        proof {
            assert(buffer@.drop_last() =~= buffer@.subrange(0, buffer@.len() - 1));
        }
        buffer.pop();
    }
    buffer.push('\n');
}

/// Appends `n` tab characters to `buffer`.
pub fn push_tabs(buffer: &mut Vec<char>, n: usize)
    ensures
        final(buffer)@ == old(buffer)@ + tabs(n as nat),
{
    let mut i: usize = 0;
    while i < n
        invariant
            i <= n,
            buffer@ == old(buffer)@ + tabs(i as nat),
        decreases n - i,
    {
        buffer.push('\t');
        i = i + 1;
        assert(buffer@ =~= old(buffer)@ + tabs(i as nat));
    }
}

/// Appends the characters of `s` to `buffer`.
pub fn push_all(buffer: &mut Vec<char>, s: &Vec<char>)
    ensures
        final(buffer)@ == old(buffer)@ + s@,
{
    let mut i: usize = 0;
    while i < s.len()
        invariant
            i <= s.len(),
            buffer@ == old(buffer)@ + s@.subrange(0, i as int),
        decreases s.len() - i,
    {
        buffer.push(s[i]);
        i = i + 1;
        assert(buffer@ =~= old(buffer)@ + s@.subrange(0, i as int));
    }
    assert(s@.subrange(0, s.len() as int) =~= s@);
}

fn is_space_char(c: char) -> (r: bool)
    ensures
        r == is_space(c),
{
    ('\t' <= c && c <= '\r') || c == ' ' || c == '\u{85}' || c == '\u{a0}' || c == '\u{1680}'
        || ('\u{2000}' <= c && c <= '\u{200a}') || c == '\u{2028}' || c == '\u{2029}'
        || c == '\u{202f}' || c == '\u{205f}' || c == '\u{3000}'
}

/// The characters of `s` without leading and trailing whitespace.
pub fn trim_chars(s: &Vec<char>) -> (r: Vec<char>)
    ensures
        r@ == trim(s@),
{
    let len = s.len();
    let mut a: usize = 0;
    assert(s@.subrange(0, len as int) =~= s@);
    while a < len && is_space_char(s[a])
        invariant
            a <= len == s.len(),
            trim_start(s@) == trim_start(s@.subrange(a as int, len as int)),
        decreases len - a,
    {
        assert(s@.subrange(a as int, len as int).drop_first() =~= s@.subrange(a + 1, len as int));
        a = a + 1;
    }
    let mut b: usize = len;
    assert(s@.subrange(a as int, len as int) =~= s@.subrange(a as int, b as int));
    while b > a && is_space_char(s[b - 1])
        invariant
            a <= b <= len == s.len(),
            trim_end(s@.subrange(a as int, len as int)) == trim_end(s@.subrange(a as int, b as int)),
        decreases b - a,
    {
        assert(s@.subrange(a as int, b as int).drop_last() =~= s@.subrange(a as int, b - 1));
        b = b - 1;
    }
    let mut r: Vec<char> = Vec::new();
    let mut i: usize = a;
    while i < b
        invariant
            a <= i <= b <= len == s.len(),
            r@ =~= s@.subrange(a as int, i as int),
        decreases b - i,
    {
        r.push(s[i]);
        i = i + 1;
        assert(r@ =~= s@.subrange(a as int, i as int));
    }
    assert(trim_start(s@.subrange(a as int, len as int)) == s@.subrange(a as int, len as int));
    assert(trim_end(s@.subrange(a as int, b as int)) == s@.subrange(a as int, b as int));
    r
}

/// Collapses the trailing run of newlines of `buffer` to exactly one newline.
pub fn force_end_line(buffer: &mut String)
    ensures
        final(buffer)@ == with_one_end_line(old(buffer)@),
{
    let mut chars = chars_of(buffer.as_str());
    end_with_one_newline(&mut chars);
    *buffer = string_of(&chars);
}

/// Appends `indent_level` tab characters to `buffer`.
pub fn indent_by(buffer: &mut String, indent_level: usize)
    ensures
        final(buffer)@ == old(buffer)@ + tabs(indent_level as nat),
{
    let mut i: usize = 0;
    while i < indent_level
        invariant
            i <= indent_level,
            buffer@ == old(buffer)@ + tabs(i as nat),
        decreases indent_level - i,
    {
        push_char(buffer, '\t');
        i = i + 1;
        assert(buffer@ =~= old(buffer)@ + tabs(i as nat));
    }
}

} // verus!
