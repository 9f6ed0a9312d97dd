//! Normalizers for literal tokens: integers, floats and strings.
use vstd::prelude::*;
use crate::text::{chars_of, string_of};

verus! {

// ---------------------------------------------------------------------------
// Integers
// ---------------------------------------------------------------------------

/// The ASCII lower-case form of `c`; other characters are unchanged.
pub open spec fn lower_char(c: char) -> char {
    if 'A' <= c && c <= 'Z' {
        ((c as u32) + 32) as char
    } else {
        c
    }
}

/// `s` with every ASCII upper-case letter made lower-case.
pub open spec fn lower(s: Seq<char>) -> Seq<char> {
    s.map_values(|c: char| lower_char(c))
}

/// `s` without its underscore characters.
pub open spec fn without_underscores(s: Seq<char>) -> Seq<char>
    decreases s.len(),
{
    if s.len() == 0 {
        s
    } else if s.last() == '_' {
        without_underscores(s.drop_last())
    } else {
        without_underscores(s.drop_last()).push(s.last())
    }
}

/// `s` cut into groups of `g` characters from its end, joined by underscores;
/// the leftmost group may be shorter.
pub open spec fn grouped(s: Seq<char>, g: nat) -> Seq<char>
    decreases s.len(),
{
    if g == 0 || s.len() <= g {
        s
    } else {
        grouped(s.subrange(0, s.len() - g), g) + seq!['_'] + s.subrange(s.len() - g, s.len() as int)
    }
}

/// The digits of `body` regrouped by `g` when there are more than `min` of
/// them; otherwise `body` as it is.
pub open spec fn regrouped(body: Seq<char>, g: nat, min: nat) -> Seq<char> {
    let digits = without_underscores(body);
    if digits.len() > min {
        grouped(digits, g)
    } else {
        body
    }
}

/// `s` begins with `0` followed by `p`.
pub open spec fn has_radix_prefix(s: Seq<char>, p: char) -> bool {
    s.len() >= 2 && s[0] == '0' && s[1] == p
}

/// An integer literal in canonical form: lower case, and its digits grouped
/// by underscores (by four after `0b` and `0x` when there are more than four,
/// by three in a decimal literal of more than six digits).
pub open spec fn normalized_integer(t: Seq<char>) -> Seq<char> {
    let l = lower(t);
    if has_radix_prefix(l, 'b') || has_radix_prefix(l, 'x') {
        l.subrange(0, 2) + regrouped(l.subrange(2, l.len() as int), 4, 4)
    } else {
        regrouped(l, 3, 6)
    }
}

pub fn to_lower_char(c: char) -> (r: char)
    ensures
        r == lower_char(c),
{
    if 'A' <= c && c <= 'Z' {
        ((c as u8) + 32) as char
    } else {
        c
    }
}

pub fn to_lower(s: &Vec<char>) -> (r: Vec<char>)
    ensures
        r@ == lower(s@),
{
    let mut r: Vec<char> = Vec::new();
    let mut i: usize = 0;
    while i < s.len()
        invariant
            i <= s.len(),
            r@ =~= lower(s@.subrange(0, i as int)),
        decreases s.len() - i,
    {
        r.push(to_lower_char(s[i]));
        i = i + 1;
        assert(r@ =~= lower(s@.subrange(0, i as int)));
    }
    assert(s@.subrange(0, s.len() as int) =~= s@);
    r
}

pub fn remove_underscores(s: &Vec<char>) -> (r: Vec<char>)
    ensures
        r@ == without_underscores(s@),
{
    let mut r: Vec<char> = Vec::new();
    let mut i: usize = 0;
    while i < s.len()
        invariant
            i <= s.len(),
            r@ == without_underscores(s@.subrange(0, i as int)),
        decreases s.len() - i,
    {
        assert(s@.subrange(0, i + 1).drop_last() =~= s@.subrange(0, i as int));
        if s[i] != '_' {
            r.push(s[i]);
        }
        i = i + 1;
    }
    assert(s@.subrange(0, s.len() as int) =~= s@);
    r
}

proof fn lemma_mod_facts(n: int, g: int)
    requires
        g > 0,
        n >= 0,
    ensures
        (n - n % g) % g == 0,
        n % g == 0 && n >= g ==> (n - g) % g == 0,
        n % g == 0 && n > 0 ==> n >= g,
        0 <= n % g < g,
{
    vstd::arithmetic::div_mod::lemma_fundamental_div_mod(n, g);
    vstd::arithmetic::div_mod::lemma_mod_pos_bound(n, g);
    vstd::arithmetic::div_mod::lemma_mod_multiples_basic(n / g, g);
    vstd::arithmetic::mul::lemma_mul_is_commutative(g, n / g);
    if n % g == 0 && n >= g {
        vstd::arithmetic::div_mod::lemma_mod_sub_multiples_vanish(n, g);
    }
    if n % g == 0 && 0 < n < g {
        vstd::arithmetic::div_mod::lemma_small_mod(n as nat, g as nat);
    }
}

/// Cuts `s` into groups of `g` characters from its end and joins them with
/// underscores.
pub fn group_digits(s: &Vec<char>, g: usize) -> (r: Vec<char>)
    requires
        g > 0,
    ensures
        r@ == grouped(s@, g as nat),
{
    let len = s.len();
    if len <= g {
        return s.clone();
    }
    let rem = len % g;
    let first = if rem == 0 { g } else { rem };
    proof {
        lemma_mod_facts(len as int, g as int);
    }
    let mut r: Vec<char> = Vec::new();
    let mut i: usize = 0;
    while i < first
        invariant
            i <= first <= g < len == s.len(),
            r@ =~= s@.subrange(0, i as int),
        decreases first - i,
    {
        r.push(s[i]);
        i = i + 1;
        assert(r@ =~= s@.subrange(0, i as int));
    }
    assert(r@ == grouped(s@.subrange(0, first as int), g as nat));
    while i < len
        invariant
            0 < first <= i <= len == s.len(),
            0 < g,
            (len - i) % (g as int) == 0,
            r@ == grouped(s@.subrange(0, i as int), g as nat),
        decreases len - i,
    {
        proof {
            lemma_mod_facts((len - i) as int, g as int);
        }
        let ghost before = r@;
        r.push('_');
        let mut j: usize = 0;
        while j < g
            invariant
                j <= g,
                i + g <= len == s.len(),
                r@ =~= before + seq!['_'] + s@.subrange(i as int, (i + j) as int),
            decreases g - j,
        {
            r.push(s[i + j]);
            j = j + 1;
            assert(r@ =~= before + seq!['_'] + s@.subrange(i as int, (i + j) as int));
        }
        proof {
            let t = s@.subrange(0, (i + g) as int);
            assert(t.subrange(0, t.len() - g) =~= s@.subrange(0, i as int));
            assert(t.subrange(t.len() - g, t.len() as int) =~= s@.subrange(i as int, (i + g) as int));
            assert(((len - i) as int - g as int) % (g as int) == 0);
        }
        i = i + g;
    }
    assert(s@.subrange(0, len as int) =~= s@);
    r
}

/// Cuts `s` into groups of `group_length` characters from its end and joins
/// them with underscores; the leftmost group may be shorter.
pub fn format_with_underscores(s: &str, group_length: usize) -> (r: String)
    requires
        group_length > 0,
    ensures
        r@ == grouped(s@, group_length as nat),
{
    string_of(&group_digits(&chars_of(s), group_length))
}

fn regroup(body: &Vec<char>, g: usize, min: usize) -> (r: Vec<char>)
    requires
        g > 0,
    ensures
        r@ == regrouped(body@, g as nat, min as nat),
{
    let digits = remove_underscores(body);
    if digits.len() > min {
        group_digits(&digits, g)
    } else {
        body.clone()
    }
}

fn tail_from(s: &Vec<char>, start: usize) -> (r: Vec<char>)
    requires
        start <= s.len(),
    ensures
        r@ == s@.subrange(start as int, s.len() as int),
{
    let mut r: Vec<char> = Vec::new();
    let mut i: usize = start;
    while i < s.len()
        invariant
            start <= i <= s.len(),
            r@ =~= s@.subrange(start as int, i as int),
        decreases s.len() - i,
    {
        r.push(s[i]);
        i = i + 1;
        assert(r@ =~= s@.subrange(start as int, i as int));
    }
    r
}

/// Puts an integer literal in canonical form: lower case, with its digits
/// grouped by underscores.
pub fn normalize_integer(text: &Vec<char>) -> (r: Vec<char>)
    ensures
        r@ == normalized_integer(text@),
{
    let l = to_lower(text);
    if l.len() >= 2 && l[0] == '0' && (l[1] == 'b' || l[1] == 'x') {
        let mut r: Vec<char> = Vec::new();
        r.push(l[0]);
        r.push(l[1]);
        let body = regroup(&tail_from(&l, 2), 4, 4);
        crate::text::push_all(&mut r, &body);
        assert(r@ =~= l@.subrange(0, 2) + body@);
        r
    } else {
        regroup(&l, 3, 6)
    }
}

/// A character of a decimal integer literal.
pub open spec fn is_decimal_char(c: char) -> bool {
    ('0' <= c && c <= '9') || c == '_'
}

/// The shape of an integer literal: a `0b` or `0x` prefix (in either case),
/// or decimal digits and underscores only.
pub open spec fn is_integer_text(t: Seq<char>) -> bool {
    has_radix_prefix(lower(t), 'b') || has_radix_prefix(lower(t), 'x') || forall|i: int|
        0 <= i < t.len() ==> is_decimal_char(#[trigger] t[i])
}

/// No character of `s` changes when lowered.
pub open spec fn is_lowered(s: Seq<char>) -> bool {
    forall|i: int| 0 <= i < s.len() ==> lower_char(#[trigger] s[i]) == s[i]
}

/// Every character of `s` belongs to a decimal literal.
pub open spec fn all_decimal(s: Seq<char>) -> bool {
    forall|i: int| 0 <= i < s.len() ==> is_decimal_char(#[trigger] s[i])
}

proof fn lemma_without_underscores_concat(a: Seq<char>, b: Seq<char>)
    ensures
        without_underscores(a + b) == without_underscores(a) + without_underscores(b),
    decreases b.len(),
{
    if b.len() == 0 {
        assert(a + b =~= a);
        assert(without_underscores(a) + without_underscores(b) =~= without_underscores(a));
    } else {
        lemma_without_underscores_concat(a, b.drop_last());
        assert((a + b).drop_last() =~= a + b.drop_last());
        assert((a + b).last() == b.last());
        if b.last() != '_' {
            assert(without_underscores(a) + without_underscores(b.drop_last()).push(b.last())
                =~= (without_underscores(a) + without_underscores(b.drop_last())).push(b.last()));
        }
    }
}

proof fn lemma_without_underscores_of_grouped(d: Seq<char>, g: nat)
    ensures
        without_underscores(grouped(d, g)) == without_underscores(d),
    decreases d.len(),
{
    if !(g == 0 || d.len() <= g) {
        let p = d.subrange(0, d.len() - g);
        let q = d.subrange(d.len() - g, d.len() as int);
        lemma_without_underscores_of_grouped(p, g);
        lemma_without_underscores_concat(grouped(p, g) + seq!['_'], q);
        lemma_without_underscores_concat(grouped(p, g), seq!['_']);
        let underscore: Seq<char> = seq!['_'];
        assert(underscore.drop_last() =~= Seq::<char>::empty());
        assert(underscore.last() == '_');
        assert(without_underscores(Seq::<char>::empty()) =~= Seq::<char>::empty());
        assert(without_underscores(underscore) =~= Seq::<char>::empty());
        lemma_without_underscores_concat(p, q);
        assert(p + q =~= d);
        assert(without_underscores(grouped(p, g)) + Seq::<char>::empty() =~= without_underscores(
            grouped(p, g),
        ));
    }
}

proof fn lemma_without_underscores_twice(x: Seq<char>)
    ensures
        without_underscores(without_underscores(x)) == without_underscores(x),
    decreases x.len(),
{
    if x.len() > 0 {
        lemma_without_underscores_twice(x.drop_last());
        if x.last() != '_' {
            let w = without_underscores(x.drop_last());
            assert(w.push(x.last()).drop_last() =~= w);
        }
    }
}

proof fn lemma_regrouped_stable(b: Seq<char>, g: nat, min: nat)
    ensures
        regrouped(regrouped(b, g, min), g, min) == regrouped(b, g, min),
{
    let d = without_underscores(b);
    if d.len() > min {
        lemma_without_underscores_of_grouped(d, g);
        lemma_without_underscores_twice(b);
    }
}

proof fn lemma_lowered_keeps(s: Seq<char>)
    requires
        is_lowered(s),
    ensures
        lower(s) == s,
{
    assert(lower(s) =~= s);
}

proof fn lemma_without_underscores_keeps(s: Seq<char>)
    ensures
        is_lowered(s) ==> is_lowered(without_underscores(s)),
        all_decimal(s) ==> all_decimal(without_underscores(s)),
    decreases s.len(),
{
    if s.len() > 0 {
        let t = s.drop_last();
        lemma_without_underscores_keeps(t);
        if is_lowered(s) {
            assert(is_lowered(t));
            assert(lower_char(s[s.len() - 1]) == s[s.len() - 1]);
        }
        if all_decimal(s) {
            assert(all_decimal(t));
            assert(is_decimal_char(s[s.len() - 1]));
        }
    }
}

proof fn lemma_grouped_keeps(d: Seq<char>, g: nat)
    ensures
        is_lowered(d) ==> is_lowered(grouped(d, g)),
        all_decimal(d) ==> all_decimal(grouped(d, g)),
    decreases d.len(),
{
    if !(g == 0 || d.len() <= g) {
        let p = d.subrange(0, d.len() - g);
        let q = d.subrange(d.len() - g, d.len() as int);
        lemma_grouped_keeps(p, g);
        let r = grouped(d, g);
        let gp = grouped(p, g);
        assert(r =~= gp + seq!['_'] + q);
        if is_lowered(d) {
            assert(is_lowered(p));
            assert forall|i: int| 0 <= i < r.len() implies lower_char(#[trigger] r[i]) == r[i] by {
                if i >= gp.len() + 1 {
                    assert(r[i] == d[d.len() - g + (i - gp.len() - 1)]);
                }
            }
        }
        if all_decimal(d) {
            assert(all_decimal(p));
            assert forall|i: int| 0 <= i < r.len() implies is_decimal_char(#[trigger] r[i]) by {
                if i >= gp.len() + 1 {
                    assert(r[i] == d[d.len() - g + (i - gp.len() - 1)]);
                }
            }
        }
    }
}

proof fn lemma_regrouped_keeps(b: Seq<char>, g: nat, min: nat)
    ensures
        is_lowered(b) ==> is_lowered(regrouped(b, g, min)),
        all_decimal(b) ==> all_decimal(regrouped(b, g, min)),
{
    lemma_without_underscores_keeps(b);
    lemma_grouped_keeps(without_underscores(b), g);
}

proof fn lemma_regrouped_keeps_digits(b: Seq<char>, g: nat, min: nat)
    ensures
        without_underscores(regrouped(b, g, min)) == without_underscores(b),
{
    let d = without_underscores(b);
    if d.len() > min {
        lemma_without_underscores_of_grouped(d, g);
        lemma_without_underscores_twice(b);
    }
}

/// Normalizing an integer literal keeps its digits: only their case and the
/// underscores between them change.
pub proof fn lemma_integer_normalization_keeps_digits(t: Seq<char>)
    ensures
        without_underscores(normalized_integer(t)) == without_underscores(lower(t)),
{
    let l = lower(t);
    if has_radix_prefix(l, 'b') || has_radix_prefix(l, 'x') {
        let head = l.subrange(0, 2);
        let body = l.subrange(2, l.len() as int);
        lemma_regrouped_keeps_digits(body, 4, 4);
        lemma_without_underscores_concat(head, regrouped(body, 4, 4));
        lemma_without_underscores_concat(head, body);
        assert(head + body =~= l);
    } else {
        lemma_regrouped_keeps_digits(l, 3, 6);
    }
}

/// Normalizing an integer literal a second time changes nothing.
pub proof fn lemma_integer_normalization_is_stable(t: Seq<char>)
    requires
        is_integer_text(t),
    ensures
        normalized_integer(normalized_integer(t)) == normalized_integer(t),
{
    let l = lower(t);
    let u = normalized_integer(t);
    assert(is_lowered(l));
    if has_radix_prefix(l, 'b') || has_radix_prefix(l, 'x') {
        let head = l.subrange(0, 2);
        let r = regrouped(l.subrange(2, l.len() as int), 4, 4);
        assert(is_lowered(l.subrange(2, l.len() as int)));
        lemma_regrouped_keeps(l.subrange(2, l.len() as int), 4, 4);
        lemma_regrouped_stable(l.subrange(2, l.len() as int), 4, 4);
        assert(u == head + r);
        assert forall|i: int| 0 <= i < u.len() implies lower_char(#[trigger] u[i]) == u[i] by {
            if i >= 2 {
                assert(u[i] == r[i - 2]);
            }
        }
        lemma_lowered_keeps(u);
        assert(u.subrange(0, 2) =~= head);
        assert(u.subrange(2, u.len() as int) =~= r);
    } else {
        assert(all_decimal(t));
        assert(all_decimal(l));
        lemma_regrouped_keeps(l, 3, 6);
        lemma_regrouped_stable(l, 3, 6);
        assert(all_decimal(u));
        assert(is_lowered(u));
        lemma_lowered_keeps(u);
        if u.len() >= 2 {
            assert(is_decimal_char(u[1]));
        }
    }
}

// ---------------------------------------------------------------------------
// Floats
// ---------------------------------------------------------------------------

/// A float literal with a `0` before a leading point and after a trailing one.
pub open spec fn normalized_float(t: Seq<char>) -> Seq<char> {
    let lead = if t.len() > 0 && t[0] == '.' { seq!['0'] } else { Seq::empty() };
    let trail = if t.len() > 0 && t.last() == '.' { seq!['0'] } else { Seq::empty() };
    lead + t + trail
}

/// Adds a `0` before a leading point and after a trailing point.
/// Adding the zeros a second time changes nothing.
pub proof fn lemma_float_normalization_is_stable(t: Seq<char>)
    ensures
        normalized_float(normalized_float(t)) == normalized_float(t),
{
    let u = normalized_float(t);
    if t.len() > 0 {
        assert(u[0] != '.');
        assert(u.last() != '.');
        assert(normalized_float(u) =~= u);
    } else {
        assert(u =~= t);
    }
}

pub fn normalize_float(text: &Vec<char>) -> (r: Vec<char>)
    ensures
        r@ == normalized_float(text@),
{
    let mut r: Vec<char> = Vec::new();
    if text.len() > 0 && text[0] == '.' {
        r.push('0');
    }
    crate::text::push_all(&mut r, text);
    if text.len() > 0 && text[text.len() - 1] == '.' {
        r.push('0');
    }
    assert(r@ =~= normalized_float(text@));
    r
}

// ---------------------------------------------------------------------------
// Strings
// ---------------------------------------------------------------------------

pub open spec fn is_quote(c: char) -> bool {
    c == '"' || c == '\''
}

/// The value of the characters between a literal's quotes: an escaped quote
/// (of either kind) stands for the quote itself; every other escape pair is
/// kept as it is, since it reads the same inside either kind of quotes.
pub open spec fn unescape_quotes(s: Seq<char>) -> Seq<char>
    decreases s.len(),
{
    if s.len() == 0 {
        s
    } else if s[0] == '\\' && s.len() >= 2 {
        if is_quote(s[1]) {
            seq![s[1]] + unescape_quotes(s.subrange(2, s.len() as int))
        } else {
            seq![s[0], s[1]] + unescape_quotes(s.subrange(2, s.len() as int))
        }
    } else {
        seq![s[0]] + unescape_quotes(s.drop_first())
    }
}

/// `v` written for a literal quoted by `q`: every `q` is escaped and escape
/// pairs are kept.
pub open spec fn escape_quote(v: Seq<char>, q: char) -> Seq<char>
    decreases v.len(),
{
    if v.len() == 0 {
        v
    } else if v[0] == '\\' && v.len() >= 2 {
        seq![v[0], v[1]] + escape_quote(v.subrange(2, v.len() as int), q)
    } else if v[0] == q {
        seq!['\\', q] + escape_quote(v.drop_first(), q)
    } else {
        seq![v[0]] + escape_quote(v.drop_first(), q)
    }
}

/// A string literal that is requoted: one quote character on each side, and
/// not a triple-quoted literal.
pub open spec fn is_requotable(t: Seq<char>) -> bool {
    &&& t.len() >= 2
    &&& is_quote(t[0])
    &&& t.last() == t[0]
    &&& !(t.len() >= 3 && t[1] == t[0] && t[2] == t[0])
}

/// The logical value of a quoted string literal.
pub open spec fn string_value(t: Seq<char>) -> Seq<char> {
    unescape_quotes(t.subrange(1, t.len() - 1))
}

/// The quote that needs no escaping: single quotes when the value holds a
/// double quote and no single quote, double quotes otherwise.
pub open spec fn preferred_quote(v: Seq<char>) -> char {
    if v.contains('"') && !v.contains('\'') {
        '\''
    } else {
        '"'
    }
}

/// A string literal requoted so as to need the fewest escapes, preferring
/// double quotes; other literals are unchanged.
pub open spec fn normalized_string(t: Seq<char>) -> Seq<char> {
    if is_requotable(t) {
        let v = string_value(t);
        let q = preferred_quote(v);
        seq![q] + escape_quote(v, q) + seq![q]
    } else {
        t
    }
}

/// Every escape pair of `v` escapes something other than a quote.
pub open spec fn escapes_no_quote(v: Seq<char>) -> bool
    decreases v.len(),
{
    if v.len() == 0 {
        true
    } else if v[0] == '\\' && v.len() >= 2 {
        !is_quote(v[1]) && escapes_no_quote(v.subrange(2, v.len() as int))
    } else {
        escapes_no_quote(v.drop_first())
    }
}

proof fn lemma_unescaped_has_no_quote_escape(s: Seq<char>)
    ensures
        escapes_no_quote(unescape_quotes(s)),
    decreases s.len(),
{
    if s.len() == 0 {
    } else if s[0] == '\\' && s.len() >= 2 {
        let rest = s.subrange(2, s.len() as int);
        lemma_unescaped_has_no_quote_escape(rest);
        let u = unescape_quotes(s);
        if is_quote(s[1]) {
            assert(u.drop_first() =~= unescape_quotes(rest));
        } else {
            assert(u.subrange(2, u.len() as int) =~= unescape_quotes(rest));
        }
    } else {
        lemma_unescaped_has_no_quote_escape(s.drop_first());
        let u = unescape_quotes(s);
        assert(u.drop_first() =~= unescape_quotes(s.drop_first()));
        if s[0] == '\\' {
            assert(s.drop_first().len() == 0);
        }
    }
}

proof fn lemma_unescape_escape(v: Seq<char>, q: char)
    requires
        escapes_no_quote(v),
        is_quote(q),
    ensures
        unescape_quotes(escape_quote(v, q)) == v,
    decreases v.len(),
{
    if v.len() == 0 {
    } else if v[0] == '\\' && v.len() >= 2 {
        let rest = v.subrange(2, v.len() as int);
        lemma_unescape_escape(rest, q);
        let e = escape_quote(v, q);
        assert(e.subrange(2, e.len() as int) =~= escape_quote(rest, q));
        assert(v =~= seq![v[0], v[1]] + rest);
    } else if v[0] == q {
        let rest = v.drop_first();
        lemma_unescape_escape(rest, q);
        let e = escape_quote(v, q);
        assert(e.subrange(2, e.len() as int) =~= escape_quote(rest, q));
        assert(v =~= seq![q] + rest);
    } else {
        let rest = v.drop_first();
        lemma_unescape_escape(rest, q);
        let e = escape_quote(v, q);
        assert(e.drop_first() =~= escape_quote(rest, q));
        assert(v =~= seq![v[0]] + rest);
        if v[0] == '\\' {
            assert(rest.len() == 0);
            assert(e =~= seq!['\\']);
        }
    }
}

/// Requoting keeps the value of a string literal: the requoted literal is
/// still a requotable literal and it reads back as the same string.
pub proof fn lemma_requote_keeps_value(t: Seq<char>)
    requires
        is_requotable(t),
    ensures
        is_requotable(normalized_string(t)),
        string_value(normalized_string(t)) == string_value(t),
{
    let v = string_value(t);
    let q = preferred_quote(v);
    let e = escape_quote(v, q);
    let out = normalized_string(t);
    lemma_unescaped_has_no_quote_escape(t.subrange(1, t.len() - 1));
    lemma_unescape_escape(v, q);
    assert(out.subrange(1, out.len() - 1) =~= e);
    if e.len() > 0 {
        assert(e[0] != q) by {
            reveal_with_fuel(escape_quote, 2);
        }
        assert(out[1] == e[0]);
    }
}

/// Requoting a second time changes nothing.
pub proof fn lemma_string_normalization_is_stable(t: Seq<char>)
    ensures
        normalized_string(normalized_string(t)) == normalized_string(t),
{
    if is_requotable(t) {
        lemma_requote_keeps_value(t);
    }
}

fn contains_char(v: &Vec<char>, c: char) -> (r: bool)
    ensures
        r == v@.contains(c),
{
    let mut i: usize = 0;
    while i < v.len()
        invariant
            i <= v.len(),
            forall|j: int| 0 <= j < i ==> v@[j] != c,
        decreases v.len() - i,
    {
        if v[i] == c {
            return true;
        }
        i = i + 1;
    }
    false
}

fn unescape_between(t: &Vec<char>, start: usize, end: usize) -> (r: Vec<char>)
    requires
        start <= end <= t.len(),
    ensures
        r@ == unescape_quotes(t@.subrange(start as int, end as int)),
{
    let ghost s = t@.subrange(start as int, end as int);
    let mut r: Vec<char> = Vec::new();
    let mut i: usize = start;
    while i < end
        invariant
            start <= i <= end <= t.len(),
            s == t@.subrange(start as int, end as int),
            r@ + unescape_quotes(t@.subrange(i as int, end as int)) == unescape_quotes(s),
        decreases end - i,
    {
        let ghost rest = t@.subrange(i as int, end as int);
        if t[i] == '\\' && i + 1 < end {
            assert(rest.subrange(2, rest.len() as int) =~= t@.subrange(i + 2, end as int));
            if !(t[i + 1] == '"' || t[i + 1] == '\'') {
                r.push('\\');
            }
            r.push(t[i + 1]);
            i = i + 2;
        } else {
            assert(rest.drop_first() =~= t@.subrange(i + 1, end as int));
            r.push(t[i]);
            i = i + 1;
        }
        assert(r@ + unescape_quotes(t@.subrange(i as int, end as int)) =~= unescape_quotes(s));
    }
    assert(r@ + unescape_quotes(t@.subrange(end as int, end as int)) =~= r@);
    r
}

fn escape_with(v: &Vec<char>, q: char, out: &mut Vec<char>)
    ensures
        final(out)@ == old(out)@ + escape_quote(v@, q),
{
    let mut i: usize = 0;
    assert(v@.subrange(0, v.len() as int) =~= v@);
    while i < v.len()
        invariant
            i <= v.len(),
            out@ + escape_quote(v@.subrange(i as int, v.len() as int), q) == old(out)@ + escape_quote(v@, q),
        decreases v.len() - i,
    {
        let ghost rest = v@.subrange(i as int, v.len() as int);
        let ghost before = out@;
        if v[i] == '\\' && i + 1 < v.len() {
            assert(rest.subrange(2, rest.len() as int) =~= v@.subrange(i + 2, v.len() as int));
            out.push('\\');
            out.push(v[i + 1]);
            i = i + 2;
        } else {
            assert(rest.drop_first() =~= v@.subrange(i + 1, v.len() as int));
            if v[i] == q {
                out.push('\\');
            }
            out.push(v[i]);
            i = i + 1;
        }
        assert(out@ + escape_quote(v@.subrange(i as int, v.len() as int), q) =~= old(out)@ + escape_quote(v@, q));
    }
    assert(v@.subrange(0, v.len() as int) =~= v@);
}

/// Requotes a string literal so that it needs the fewest escapes, preferring
/// double quotes.
pub fn normalize_string(text: &Vec<char>) -> (r: Vec<char>)
    ensures
        r@ == normalized_string(text@),
{
    let n = text.len();
    let requotable = n >= 2 && (text[0] == '"' || text[0] == '\'') && text[n - 1] == text[0]
        && !(n >= 3 && text[1] == text[0] && text[2] == text[0]);
    if !requotable {
        return text.clone();
    }
    let v = unescape_between(text, 1, n - 1);
    let q = if contains_char(&v, '"') && !contains_char(&v, '\'') { '\'' } else { '"' };
    let mut r: Vec<char> = Vec::new();
    r.push(q);
    escape_with(&v, q, &mut r);
    r.push(q);
    r
}

} // verus!
