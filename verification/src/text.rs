//! Character classes, scanning and trimming over `Seq<char>`, and the few
//! standard-library string operations the parser and serializer rely on.
use vstd::prelude::*;

verus! {

/// `char::is_whitespace`: the Unicode `White_Space` property.
pub open spec fn spec_is_whitespace(c: char) -> bool {
    let u = c as u32;
    ||| 0x09 <= u <= 0x0D
    ||| u == 0x20
    ||| u == 0x85
    ||| u == 0xA0
    ||| u == 0x1680
    ||| 0x2000 <= u <= 0x200A
    ||| u == 0x2028
    ||| u == 0x2029
    ||| u == 0x202F
    ||| u == 0x205F
    ||| u == 0x3000
}

/// `char::is_ascii_whitespace`: space, tab, line feed, form feed, carriage return.
pub open spec fn spec_is_ascii_whitespace(c: char) -> bool {
    c == ' ' || c == '\t' || c == '\n' || c == '\x0C' || c == '\r'
}

pub open spec fn spec_is_ascii_digit(c: char) -> bool {
    '0' <= c && c <= '9'
}

/// `char::to_ascii_lowercase`.
pub open spec fn spec_ascii_lower(c: char) -> char {
    if 'A' <= c && c <= 'Z' {
        ((c as u32) + 32) as char
    } else {
        c
    }
}

/// The Unicode `Alphabetic` or `Numeric` property of a character, as
/// `char::is_alphanumeric` reports it.
pub uninterp spec fn char_is_alphanumeric(c: char) -> bool;

/// Calls `char::is_alphanumeric`; the contract names its result
/// `char_is_alphanumeric(c)` and says nothing more of it.
#[verifier::external_body]
pub(crate) fn is_alphanumeric(c: char) -> (b: bool)
    ensures
        b == char_is_alphanumeric(c),
{
    c.is_alphanumeric()
}

/// What `str::to_uppercase` returns for a string with the given characters
/// (full Unicode case mapping).
pub uninterp spec fn str_to_uppercase(s: Seq<char>) -> Seq<char>;

/// Calls `str::to_uppercase`; the contract names its result
/// `str_to_uppercase(s@)` and says nothing more of it.
#[verifier::external_body]
pub(crate) fn to_uppercase(s: &str) -> (r: String)
    ensures
        r@ == str_to_uppercase(s@),
{
    s.to_uppercase()
}

/// Calls `String::push`, which appends one character.
#[verifier::external_body]
pub(crate) fn push_char(s: &mut String, c: char)
    ensures
        final(s)@ == old(s)@.push(c),
{
    s.push(c);
}

pub fn is_whitespace(c: char) -> (b: bool)
    ensures
        b == spec_is_whitespace(c),
{
    let u = c as u32;
    (0x09 <= u && u <= 0x0D) || u == 0x20 || u == 0x85 || u == 0xA0 || u == 0x1680 || (0x2000
        <= u && u <= 0x200A) || u == 0x2028 || u == 0x2029 || u == 0x202F || u == 0x205F || u
        == 0x3000
}

pub fn is_ascii_whitespace(c: char) -> (b: bool)
    ensures
        b == spec_is_ascii_whitespace(c),
{
    c == ' ' || c == '\t' || c == '\n' || c == '\x0C' || c == '\r'
}

pub fn is_ascii_digit(c: char) -> (b: bool)
    ensures
        b == spec_is_ascii_digit(c),
{
    '0' <= c && c <= '9'
}

pub fn ascii_lower(c: char) -> (r: char)
    ensures
        r == spec_ascii_lower(c),
{
    if 'A' <= c && c <= 'Z' {
        let u = (c as u32) + 32;
        assert(0x61 <= u <= 0x7A);
        char_from_ascii(u)
    } else {
        c
    }
}

fn char_from_ascii(u: u32) -> (c: char)
    requires
        u < 0x80,
    ensures
        c == u as char,
        c as u32 == u,
{
    let b = u as u8;
    let c = b as char;
    c
}

/// Classes of characters that the scanners below look for.
#[derive(Clone, Copy, PartialEq, Eq, Debug)]
pub enum CharClass {
    Star,
    Whitespace,
    AsciiWhitespace,
    AsciiWhitespaceOrColon,
    Colon,
    AsciiDigit,
    Dash,
    CloseBracket,
    GreaterOrNewline,
    CloseBracketOrNewline,
    Newline,
    Space,
    NotColon,
    /// Alphanumeric, `_` or `-`: the characters of a drawer name.
    DrawerName,
    /// Alphanumeric, `_`, `@`, `#` or `%`: the characters of a tag.
    TagChar,
}

pub open spec fn in_class(c: char, k: CharClass) -> bool {
    match k {
        CharClass::Star => c == '*',
        CharClass::Whitespace => spec_is_whitespace(c),
        CharClass::AsciiWhitespace => spec_is_ascii_whitespace(c),
        CharClass::AsciiWhitespaceOrColon => spec_is_ascii_whitespace(c) || c == ':',
        CharClass::Colon => c == ':',
        CharClass::AsciiDigit => spec_is_ascii_digit(c),
        CharClass::Dash => c == '-',
        CharClass::CloseBracket => c == ']',
        CharClass::GreaterOrNewline => c == '>' || c == '\n',
        CharClass::CloseBracketOrNewline => c == ']' || c == '\n',
        CharClass::Newline => c == '\n',
        CharClass::Space => c == ' ',
        CharClass::NotColon => c != ':',
        CharClass::DrawerName => char_is_alphanumeric(c) || c == '_' || c == '-',
        CharClass::TagChar => char_is_alphanumeric(c) || c == '_' || c == '@' || c == '#' || c
            == '%',
    }
}

pub fn in_class_exec(c: char, k: CharClass) -> (b: bool)
    ensures
        b == in_class(c, k),
{
    match k {
        CharClass::Star => c == '*',
        CharClass::Whitespace => is_whitespace(c),
        CharClass::AsciiWhitespace => is_ascii_whitespace(c),
        CharClass::AsciiWhitespaceOrColon => is_ascii_whitespace(c) || c == ':',
        CharClass::Colon => c == ':',
        CharClass::AsciiDigit => is_ascii_digit(c),
        CharClass::Dash => c == '-',
        CharClass::CloseBracket => c == ']',
        CharClass::GreaterOrNewline => c == '>' || c == '\n',
        CharClass::CloseBracketOrNewline => c == ']' || c == '\n',
        CharClass::Newline => c == '\n',
        CharClass::Space => c == ' ',
        CharClass::NotColon => c != ':',
        CharClass::DrawerName => is_alphanumeric(c) || c == '_' || c == '-',
        CharClass::TagChar => is_alphanumeric(c) || c == '_' || c == '@' || c == '#' || c == '%',
    }
}

/// The first index `j >= i` at which `s[j]` is not in class `k` (or `s.len()`).
pub open spec fn span_while(s: Seq<char>, i: int, k: CharClass) -> int
    decreases s.len() - i,
{
    if i < s.len() && in_class(s[i], k) {
        span_while(s, i + 1, k)
    } else {
        i
    }
}

/// The first index `j >= i` at which `s[j]` is in class `k` (or `s.len()`).
pub open spec fn find_from(s: Seq<char>, i: int, k: CharClass) -> int
    decreases s.len() - i,
{
    if i < s.len() && !in_class(s[i], k) {
        find_from(s, i + 1, k)
    } else {
        i
    }
}

/// The least index `j <= i` such that every `s[j..i]` is in class `k`.
pub open spec fn back_while(s: Seq<char>, i: int, k: CharClass) -> int
    decreases i,
{
    if 0 < i <= s.len() && in_class(s[i - 1], k) {
        back_while(s, i - 1, k)
    } else {
        i
    }
}

pub proof fn lemma_span_while(s: Seq<char>, i: int, k: CharClass)
    requires
        0 <= i <= s.len(),
    ensures
        i <= span_while(s, i, k) <= s.len(),
        forall|j: int| i <= j < span_while(s, i, k) ==> in_class(#[trigger] s[j], k),
        span_while(s, i, k) < s.len() ==> !in_class(s[span_while(s, i, k)], k),
    decreases s.len() - i,
{
    if i < s.len() && in_class(s[i], k) {
        lemma_span_while(s, i + 1, k);
    }
}

pub proof fn lemma_find_from(s: Seq<char>, i: int, k: CharClass)
    requires
        0 <= i <= s.len(),
    ensures
        i <= find_from(s, i, k) <= s.len(),
        forall|j: int| i <= j < find_from(s, i, k) ==> !in_class(#[trigger] s[j], k),
        find_from(s, i, k) < s.len() ==> in_class(s[find_from(s, i, k)], k),
    decreases s.len() - i,
{
    if i < s.len() && !in_class(s[i], k) {
        lemma_find_from(s, i + 1, k);
    }
}

pub proof fn lemma_back_while(s: Seq<char>, i: int, k: CharClass)
    requires
        0 <= i <= s.len(),
    ensures
        0 <= back_while(s, i, k) <= i,
        forall|j: int| back_while(s, i, k) <= j < i ==> in_class(#[trigger] s[j], k),
        back_while(s, i, k) > 0 ==> !in_class(s[back_while(s, i, k) - 1], k),
    decreases i,
{
    if 0 < i <= s.len() && in_class(s[i - 1], k) {
        lemma_back_while(s, i - 1, k);
    }
}

/// Whether every character of `s` is in class `k`.
pub open spec fn all_in_class(s: Seq<char>, k: CharClass) -> bool {
    forall|j: int| 0 <= j < s.len() ==> in_class(#[trigger] s[j], k)
}

pub fn span_while_exec(s: &Vec<char>, i: usize, k: CharClass) -> (r: usize)
    requires
        i <= s@.len(),
    ensures
        r == span_while(s@, i as int, k),
{
    let mut j = i;
    while j < s.len() && in_class_exec(s[j], k)
        invariant
            i <= j <= s@.len(),
            span_while(s@, i as int, k) == span_while(s@, j as int, k),
        decreases s@.len() - j,
    {
        j += 1;
    }
    j
}

pub fn find_from_exec(s: &Vec<char>, i: usize, k: CharClass) -> (r: usize)
    requires
        i <= s@.len(),
    ensures
        r == find_from(s@, i as int, k),
{
    let mut j = i;
    while j < s.len() && !in_class_exec(s[j], k)
        invariant
            i <= j <= s@.len(),
            find_from(s@, i as int, k) == find_from(s@, j as int, k),
        decreases s@.len() - j,
    {
        j += 1;
    }
    j
}

pub fn back_while_exec(s: &Vec<char>, i: usize, k: CharClass) -> (r: usize)
    requires
        i <= s@.len(),
    ensures
        r == back_while(s@, i as int, k),
{
    let mut j = i;
    while j > 0 && in_class_exec(s[j - 1], k)
        invariant
            j <= i <= s@.len(),
            back_while(s@, i as int, k) == back_while(s@, j as int, k),
        decreases j,
    {
        j -= 1;
    }
    j
}

pub fn all_in_class_exec(s: &Vec<char>, a: usize, b: usize, k: CharClass) -> (r: bool)
    requires
        a <= b <= s@.len(),
    ensures
        r == all_in_class(s@.subrange(a as int, b as int), k),
{
    let mut j = a;
    while j < b
        invariant
            a <= j <= b <= s@.len(),
            forall|t: int| a <= t < j ==> in_class(#[trigger] s@[t], k),
        decreases b - j,
    {
        if !in_class_exec(s[j], k) {
            assert(s@.subrange(a as int, b as int)[j - a] == s@[j as int]);
            return false;
        }
        j += 1;
    }
    assert forall|t: int| 0 <= t < b - a implies in_class(
        #[trigger] s@.subrange(a as int, b as int)[t],
        k,
    ) by {
        assert(s@.subrange(a as int, b as int)[t] == s@[a + t]);
    }
    true
}

/// `str::trim_start`: drop leading `White_Space` characters.
pub open spec fn trim_start(s: Seq<char>) -> Seq<char> {
    s.skip(span_while(s, 0, CharClass::Whitespace))
}

/// `str::trim_end`: drop trailing `White_Space` characters.
pub open spec fn trim_end(s: Seq<char>) -> Seq<char> {
    s.take(back_while(s, s.len() as int, CharClass::Whitespace))
}

/// `str::trim`.
pub open spec fn trim(s: Seq<char>) -> Seq<char> {
    trim_end(trim_start(s))
}

/// The bounds `(lo, hi)` of `trim(s[a..b])` inside `s`.
pub fn trim_bounds(s: &Vec<char>, a: usize, b: usize) -> (r: (usize, usize))
    requires
        a <= b <= s@.len(),
    ensures
        a <= r.0 <= r.1 <= b,
        s@.subrange(r.0 as int, r.1 as int) == trim(s@.subrange(a as int, b as int)),
        s@.subrange(r.0 as int, b as int) == trim_start(s@.subrange(a as int, b as int)),
{
    let ghost t = s@.subrange(a as int, b as int);
    let mut lo = a;
    while lo < b && is_whitespace(s[lo])
        invariant
            a <= lo <= b <= s@.len(),
            t == s@.subrange(a as int, b as int),
            span_while(t, 0, CharClass::Whitespace) == span_while(t, lo - a, CharClass::Whitespace),
        decreases b - lo,
    {
        assert(t[lo - a] == s@[lo as int]);
        lo += 1;
    }
    assert(span_while(t, 0, CharClass::Whitespace) == lo - a) by {
        if lo < b {
            assert(t[lo - a] == s@[lo as int]);
        }
    }
    let ghost ts = trim_start(t);
    assert(ts == s@.subrange(lo as int, b as int));
    let mut hi = b;
    while hi > lo && is_whitespace(s[hi - 1])
        invariant
            a <= lo <= hi <= b <= s@.len(),
            ts == s@.subrange(lo as int, b as int),
            back_while(ts, ts.len() as int, CharClass::Whitespace) == back_while(
                ts,
                hi - lo,
                CharClass::Whitespace,
            ),
        decreases hi,
    {
        assert(ts[hi - 1 - lo] == s@[hi - 1]);
        hi -= 1;
    }
    assert(back_while(ts, ts.len() as int, CharClass::Whitespace) == hi - lo) by {
        if hi > lo {
            assert(ts[hi - 1 - lo] == s@[hi - 1]);
        }
    }
    assert(trim(t) == s@.subrange(lo as int, hi as int));
    (lo, hi)
}

/// Collect the characters of a string slice.
pub fn chars_of(s: &str) -> (v: Vec<char>)
    ensures
        v@ == s@,
{
    let mut v: Vec<char> = Vec::new();
    for c in it: s.chars()
        invariant
            v@ == it.seq().take(it.index() as int),
    {
        v.push(c);
    }
    v
}

/// Build a `String` from `v[a..b]`.
pub fn string_of_range(v: &Vec<char>, a: usize, b: usize) -> (s: String)
    requires
        a <= b <= v@.len(),
    ensures
        s@ == v@.subrange(a as int, b as int),
{
    let mut s = String::new();
    let mut i: usize = a;
    while i < b
        invariant
            a <= i <= b <= v@.len(),
            s@ == v@.subrange(a as int, i as int),
        decreases b - i,
    {
        push_char(&mut s, v[i]);
        assert(v@.subrange(a as int, i as int).push(v@[i as int]) == v@.subrange(
            a as int,
            i + 1,
        ));
        i += 1;
    }
    s
}

/// Append `v[a..b]` to `s`.
pub fn push_range(s: &mut String, v: &Vec<char>, a: usize, b: usize)
    requires
        a <= b <= v@.len(),
    ensures
        final(s)@ == old(s)@ + v@.subrange(a as int, b as int),
{
    let ghost s0 = s@;
    let mut i: usize = a;
    while i < b
        invariant
            a <= i <= b <= v@.len(),
            s@ == s0 + v@.subrange(a as int, i as int),
        decreases b - i,
    {
        push_char(s, v[i]);
        assert(v@.subrange(a as int, i as int).push(v@[i as int]) == v@.subrange(
            a as int,
            i + 1,
        ));
        i += 1;
    }
}

/// Append all of `t` to `s`.
pub fn push_str(s: &mut String, t: &str)
    ensures
        final(s)@ == old(s)@ + t@,
{
    let v = chars_of(t);
    push_range(s, &v, 0, v.len());
    assert(v@.subrange(0, v@.len() as int) == v@);
}

/// A copy of `v[a..b]`.
pub fn sub_vec(v: &Vec<char>, a: usize, b: usize) -> (r: Vec<char>)
    requires
        a <= b <= v@.len(),
    ensures
        r@ == v@.subrange(a as int, b as int),
{
    let mut r: Vec<char> = Vec::new();
    let mut i: usize = a;
    while i < b
        invariant
            a <= i <= b <= v@.len(),
            r@ == v@.subrange(a as int, i as int),
        decreases b - i,
    {
        r.push(v[i]);
        assert(v@.subrange(a as int, i as int).push(v@[i as int]) == v@.subrange(
            a as int,
            i + 1,
        ));
        i += 1;
    }
    r
}

/// Whether `s` begins with the characters of `p`.
pub open spec fn has_prefix(s: Seq<char>, p: Seq<char>) -> bool {
    p.len() <= s.len() && s.take(p.len() as int) == p
}

/// Whether `s[a..]` begins with `p`.
pub fn has_prefix_at(s: &Vec<char>, a: usize, p: &Vec<char>) -> (r: bool)
    requires
        a <= s@.len(),
    ensures
        r == has_prefix(s@.skip(a as int), p@),
{
    let n = s.len();
    if p.len() > n - a {
        return false;
    }
    let mut i: usize = 0;
    while i < p.len()
        invariant
            i <= p@.len(),
            n == s@.len(),
            a <= s@.len(),
            p@.len() <= s@.len() - a,
            forall|j: int| 0 <= j < i ==> s@[a + j] == p@[j],
        decreases p@.len() - i,
    {
        if s[a + i] != p[i] {
            assert(s@.skip(a as int).take(p@.len() as int)[i as int] == s@[a + i]);
            return false;
        }
        i += 1;
    }
    assert(s@.skip(a as int).take(p@.len() as int) =~= p@);
    true
}

/// Whether `s` begins with `p` when `s` is lowered to ASCII lowercase
/// (`p` itself being lowercase).
pub open spec fn has_prefix_ascii_ci(s: Seq<char>, p: Seq<char>) -> bool {
    p.len() <= s.len() && forall|j: int| 0 <= j < p.len() ==> spec_ascii_lower(#[trigger] s[j]) == p[j]
}

pub fn has_prefix_ascii_ci_at(s: &Vec<char>, a: usize, p: &Vec<char>) -> (r: bool)
    requires
        a <= s@.len(),
    ensures
        r == has_prefix_ascii_ci(s@.skip(a as int), p@),
{
    let n = s.len();
    if p.len() > n - a {
        return false;
    }
    let mut i: usize = 0;
    while i < p.len()
        invariant
            i <= p@.len(),
            n == s@.len(),
            a <= s@.len(),
            p@.len() <= s@.len() - a,
            forall|j: int| 0 <= j < i ==> spec_ascii_lower(s@[a + j]) == p@[j],
        decreases p@.len() - i,
    {
        if ascii_lower(s[a + i]) != p[i] {
            assert(s@.skip(a as int)[i as int] == s@[a + i]);
            return false;
        }
        i += 1;
    }
    assert forall|j: int| 0 <= j < p@.len() implies spec_ascii_lower(#[trigger] s@.skip(a as int)[j])
        == p@[j] by {
        assert(s@.skip(a as int)[j] == s@[a + j]);
    }
    true
}

/// `str::eq_ignore_ascii_case` against a lowercase ASCII pattern `p`.
pub open spec fn eq_ascii_ci(s: Seq<char>, p: Seq<char>) -> bool {
    s.len() == p.len() && has_prefix_ascii_ci(s, p)
}


/// Scanning a suffix is scanning the whole from an offset.
pub proof fn lemma_find_from_skip(s: Seq<char>, a: int, i: int, k: CharClass)
    requires
        0 <= a <= s.len(),
        0 <= i <= s.len() - a,
    ensures
        find_from(s.skip(a), i, k) == find_from(s, a + i, k) - a,
    decreases s.len() - a - i,
{
    if i < s.len() - a && !in_class(s[a + i], k) {
        assert(s.skip(a)[i] == s[a + i]);
        lemma_find_from_skip(s, a, i + 1, k);
    } else if i < s.len() - a {
        assert(s.skip(a)[i] == s[a + i]);
    }
}

} // verus!
