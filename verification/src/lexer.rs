//! Classification of single source lines.
use vstd::prelude::*;
use vstd::utf8::encode_utf8;
use crate::text::{
    all_in_class, all_in_class_exec, back_while, back_while_exec, chars_of, eq_ascii_ci, find_from,
    find_from_exec, has_prefix_ascii_ci, has_prefix_ascii_ci_at, in_class, lemma_back_while,
    lemma_find_from, lemma_span_while, push_char, span_while, span_while_exec, str_to_uppercase,
    string_of_range, sub_vec, to_uppercase, trim, trim_bounds, trim_end, CharClass,
};

verus! {

/// A line-level token. The parser processes these to build the document tree.
#[derive(Debug, Clone, PartialEq)]
pub enum LineToken {
    /// `* Title`, `** Title`, …
    Headline { level: u8, rest: String },
    /// `#+KEY: VALUE` (not a block keyword)
    Keyword { key: String, value: String },
    /// `#+begin_KIND params`
    BeginBlock { kind: String, params: String },
    /// `#+end_KIND`
    EndBlock(String),
    /// `:NAME:` on its own line (drawer open)
    DrawerBegin(String),
    /// `:END:`
    DrawerEnd,
    /// `:KEY: VALUE` (property inside a drawer)
    DrawerProperty { key: String, value: String },
    /// `- text`, `+ text`, `1. text`, …
    ListItem { indent: usize, bullet: String, rest: String },
    HorizontalRule,
    Blank,
    /// Any other text line.
    Text(String),
}

/// The model of a `LineToken`.
pub enum LineTokenV {
    Headline { level: u8, rest: Seq<char> },
    Keyword { key: Seq<char>, value: Seq<char> },
    BeginBlock { kind: Seq<char>, params: Seq<char> },
    EndBlock(Seq<char>),
    DrawerBegin(Seq<char>),
    DrawerEnd,
    DrawerProperty { key: Seq<char>, value: Seq<char> },
    ListItem { indent: usize, bullet: Seq<char>, rest: Seq<char> },
    HorizontalRule,
    Blank,
    Text(Seq<char>),
}

impl View for LineToken {
    type V = LineTokenV;

    open spec fn view(&self) -> LineTokenV {
        match self {
            LineToken::Headline { level, rest } => LineTokenV::Headline { level: *level, rest: rest@ },
            LineToken::Keyword { key, value } => LineTokenV::Keyword { key: key@, value: value@ },
            LineToken::BeginBlock { kind, params } => LineTokenV::BeginBlock {
                kind: kind@,
                params: params@,
            },
            LineToken::EndBlock(k) => LineTokenV::EndBlock(k@),
            LineToken::DrawerBegin(n) => LineTokenV::DrawerBegin(n@),
            LineToken::DrawerEnd => LineTokenV::DrawerEnd,
            LineToken::DrawerProperty { key, value } => LineTokenV::DrawerProperty {
                key: key@,
                value: value@,
            },
            LineToken::ListItem { indent, bullet, rest } => LineTokenV::ListItem {
                indent: *indent,
                bullet: bullet@,
                rest: rest@,
            },
            LineToken::HorizontalRule => LineTokenV::HorizontalRule,
            LineToken::Blank => LineTokenV::Blank,
            LineToken::Text(t) => LineTokenV::Text(t@),
        }
    }
}

pub open spec fn lit_begin() -> Seq<char> {
    seq!['b', 'e', 'g', 'i', 'n', '_']
}

pub open spec fn lit_end() -> Seq<char> {
    seq!['e', 'n', 'd', '_']
}

pub open spec fn lit_end_drawer() -> Seq<char> {
    seq![':', 'e', 'n', 'd', ':']
}

/// `* Title`: a run of stars followed by a space.
pub open spec fn spec_headline_token(l: Seq<char>) -> Option<LineTokenV> {
    if l.len() > 0 && l[0] == '*' {
        let level = span_while(l, 0, CharClass::Star);
        if level < l.len() && l[level] == ' ' {
            Some(LineTokenV::Headline { level: level as u8, rest: l.skip(level + 1) })
        } else {
            None
        }
    } else {
        None
    }
}

/// A `#+…` line, given what follows the `#+`.
///
/// `begin_` and `end_` are recognised case-insensitively, exactly as testing
/// the lowercased remainder would find them: no character outside ASCII
/// lowercases to a string that begins the same way.
pub open spec fn spec_hash_token(rest: Seq<char>) -> LineTokenV {
    if has_prefix_ascii_ci(rest, lit_begin()) {
        let after = rest.skip(6);
        let k = find_from(after, 0, CharClass::AsciiWhitespace);
        LineTokenV::BeginBlock {
            kind: str_to_uppercase(after.take(k)),
            params: trim(after.skip(k)),
        }
    } else if has_prefix_ascii_ci(rest, lit_end()) {
        let after = rest.skip(4);
        let k = find_from(after, 0, CharClass::AsciiWhitespaceOrColon);
        LineTokenV::EndBlock(str_to_uppercase(after.take(k)))
    } else {
        let c = find_from(rest, 0, CharClass::Colon);
        LineTokenV::Keyword {
            key: rest.take(c),
            value: if c < rest.len() {
                trim(rest.skip(c + 1))
            } else {
                seq![]
            },
        }
    }
}

/// A line that begins with `:`: `:END:`, `:NAME:` or `:KEY: VALUE`.
pub open spec fn spec_drawer_token(l: Seq<char>) -> Option<LineTokenV> {
    let t = trim_end(l);
    if eq_ascii_ci(t, lit_end_drawer()) {
        Some(LineTokenV::DrawerEnd)
    } else {
        let t1 = t.skip(1);
        let c = find_from(t1, 0, CharClass::Colon);
        if c < t1.len() {
            let name = t1.take(c);
            let after = trim(t1.skip(c + 1));
            if name.len() > 0 && all_in_class(name, CharClass::DrawerName) {
                if after.len() == 0 {
                    Some(LineTokenV::DrawerBegin(name))
                } else {
                    Some(LineTokenV::DrawerProperty { key: name, value: after })
                }
            } else {
                None
            }
        } else {
            None
        }
    }
}

/// Five or more dashes and nothing else but surrounding whitespace.
pub open spec fn spec_is_rule(l: Seq<char>) -> bool {
    trim(l).len() >= 5 && all_in_class(trim(l), CharClass::Dash)
}

/// `- text`, `+ text` or `12. text`, after optional leading whitespace
/// whose UTF-8 length is the indent.
pub open spec fn spec_list_token(l: Seq<char>) -> Option<LineTokenV> {
    let ic = span_while(l, 0, CharClass::Whitespace);
    let indent = encode_utf8(l.take(ic)).len() as usize;
    let tail = l.skip(ic);
    if tail.len() >= 2 && (tail[0] == '-' || tail[0] == '+') && tail[1] == ' ' {
        Some(LineTokenV::ListItem { indent, bullet: seq![tail[0]], rest: tail.skip(2) })
    } else {
        let d = span_while(tail, 0, CharClass::AsciiDigit);
        if d > 0 && d + 2 <= tail.len() && tail[d] == '.' && tail[d + 1] == ' ' {
            Some(LineTokenV::ListItem { indent, bullet: tail.take(d).push('.'), rest: tail.skip(d + 2) })
        } else {
            None
        }
    }
}

/// The classification of one source line.
pub open spec fn spec_tokenize(l: Seq<char>) -> LineTokenV {
    if trim(l).len() == 0 {
        LineTokenV::Blank
    } else if spec_headline_token(l) is Some {
        spec_headline_token(l)->0
    } else if l.len() >= 2 && l[0] == '#' && l[1] == '+' {
        spec_hash_token(l.skip(2))
    } else if l.len() > 0 && l[0] == ':' && spec_drawer_token(l) is Some {
        spec_drawer_token(l)->0
    } else if spec_is_rule(l) {
        LineTokenV::HorizontalRule
    } else if spec_list_token(l) is Some {
        spec_list_token(l)->0
    } else {
        LineTokenV::Text(l)
    }
}

/// The UTF-8 width of one character.
pub open spec fn utf8_width(c: char) -> nat {
    let u = c as u32;
    if u < 0x80 {
        1
    } else if u < 0x800 {
        2
    } else if u < 0x10000 {
        3
    } else {
        4
    }
}

pub proof fn lemma_encode_utf8_concat(a: Seq<char>, b: Seq<char>)
    ensures
        encode_utf8(a + b) == encode_utf8(a) + encode_utf8(b),
    decreases a.len(),
{
    if a.len() == 0 {
        assert(a + b == b);
    } else {
        assert((a + b).drop_first() == a.drop_first() + b);
        lemma_encode_utf8_concat(a.drop_first(), b);
    }
}

pub proof fn lemma_encode_utf8_single(c: char)
    ensures
        encode_utf8(seq![c]).len() == utf8_width(c),
{
    broadcast use vstd::utf8::char_is_scalar;

    let s = seq![c];
    assert(s.drop_first() == Seq::<char>::empty());
    assert(encode_utf8(Seq::<char>::empty()) == Seq::<u8>::empty());
    assert(encode_utf8(s) == vstd::utf8::encode_scalar(s[0] as u32) + encode_utf8(s.drop_first()));
    assert(vstd::utf8::is_scalar(c as u32));
}

pub proof fn lemma_encode_utf8_take(s: Seq<char>, i: int)
    requires
        0 <= i < s.len(),
    ensures
        encode_utf8(s.take(i + 1)).len() == encode_utf8(s.take(i)).len() + utf8_width(s[i]),
{
    assert(s.take(i + 1) == s.take(i) + seq![s[i]]);
    lemma_encode_utf8_concat(s.take(i), seq![s[i]]);
    lemma_encode_utf8_single(s[i]);
}

pub proof fn lemma_encode_utf8_prefix_len(s: Seq<char>, i: int)
    requires
        0 <= i <= s.len(),
    ensures
        encode_utf8(s.take(i)).len() <= encode_utf8(s).len(),
{
    assert(s == s.take(i) + s.skip(i));
    lemma_encode_utf8_concat(s.take(i), s.skip(i));
}

pub fn utf8_width_exec(c: char) -> (w: usize)
    ensures
        w == utf8_width(c),
{
    let u = c as u32;
    if u < 0x80 {
        1
    } else if u < 0x800 {
        2
    } else if u < 0x10000 {
        3
    } else {
        4
    }
}

/// The UTF-8 length of `l[..k]`.
fn utf8_prefix_len(l: &Vec<char>, k: usize) -> (r: usize)
    requires
        k <= l@.len(),
        encode_utf8(l@).len() <= usize::MAX,
    ensures
        r == encode_utf8(l@.take(k as int)).len(),
{
    let mut r: usize = 0;
    let mut i: usize = 0;
    proof {
        assert(l@.take(0) == Seq::<char>::empty());
    }
    while i < k
        invariant
            i <= k <= l@.len(),
            encode_utf8(l@).len() <= usize::MAX,
            r == encode_utf8(l@.take(i as int)).len(),
        decreases k - i,
    {
        proof {
            lemma_encode_utf8_take(l@, i as int);
            lemma_encode_utf8_prefix_len(l@, i + 1);
        }
        r = r + utf8_width_exec(l[i]);
        i += 1;
    }
    r
}

fn headline_token(l: &Vec<char>) -> (r: Option<LineToken>)
    ensures
        match r {
            Some(t) => spec_headline_token(l@) == Some(t@),
            None => spec_headline_token(l@) is None,
        },
{
    let n = l.len();
    if n > 0 && l[0] == '*' {
        let level = span_while_exec(l, 0, CharClass::Star);
        proof {
            lemma_span_while(l@, 0, CharClass::Star);
        }
        if level < n && l[level] == ' ' {
            #[verifier::truncate]
            let lv = level as u8;
            let rest = string_of_range(l, level + 1, n);
            assert(rest@ == l@.skip(level + 1));
            return Some(LineToken::Headline { level: lv, rest });
        }
    }
    None
}

fn hash_token(rest: &Vec<char>) -> (r: LineToken)
    ensures
        r@ == spec_hash_token(rest@),
{
    let n = rest.len();
    let begin = vec!['b', 'e', 'g', 'i', 'n', '_'];
    let end = vec!['e', 'n', 'd', '_'];
    assert(begin@ == lit_begin());
    assert(end@ == lit_end());
    if has_prefix_ascii_ci_at(rest, 0, &begin) {
        assert(rest@.skip(0) == rest@);
        let after = sub_vec(rest, 6, n);
        assert(after@ == rest@.skip(6));
        let k = find_from_exec(&after, 0, CharClass::AsciiWhitespace);
        proof {
            lemma_find_from(after@, 0, CharClass::AsciiWhitespace);
        }
        let raw = string_of_range(&after, 0, k);
        let kind = to_uppercase(raw.as_str());
        let (plo, phi) = trim_bounds(&after, k, after.len());
        let params = string_of_range(&after, plo, phi);
        assert(after@.subrange(0, k as int) == after@.take(k as int));
        assert(after@.subrange(k as int, after@.len() as int) == after@.skip(k as int));
        LineToken::BeginBlock { kind, params }
    } else if has_prefix_ascii_ci_at(rest, 0, &end) {
        assert(rest@.skip(0) == rest@);
        let after = sub_vec(rest, 4, n);
        assert(after@ == rest@.skip(4));
        let k = find_from_exec(&after, 0, CharClass::AsciiWhitespaceOrColon);
        proof {
            lemma_find_from(after@, 0, CharClass::AsciiWhitespaceOrColon);
        }
        let raw = string_of_range(&after, 0, k);
        let kind = to_uppercase(raw.as_str());
        assert(after@.subrange(0, k as int) == after@.take(k as int));
        LineToken::EndBlock(kind)
    } else {
        assert(rest@.skip(0) == rest@);
        let c = find_from_exec(rest, 0, CharClass::Colon);
        proof {
            lemma_find_from(rest@, 0, CharClass::Colon);
        }
        let key = string_of_range(rest, 0, c);
        assert(rest@.subrange(0, c as int) == rest@.take(c as int));
        let value = if c < n {
            let (vlo, vhi) = trim_bounds(rest, c + 1, n);
            assert(rest@.subrange(c + 1, n as int) == rest@.skip(c + 1));
            string_of_range(rest, vlo, vhi)
        } else {
            String::new()
        };
        LineToken::Keyword { key, value }
    }
}

fn drawer_token(l: &Vec<char>) -> (r: Option<LineToken>)
    requires
        l@.len() > 0,
        l@[0] == ':',
    ensures
        match r {
            Some(t) => spec_drawer_token(l@) == Some(t@),
            None => spec_drawer_token(l@) is None,
        },
{
    let n = l.len();
    let te = back_while_exec(l, n, CharClass::Whitespace);
    proof {
        lemma_back_while(l@, n as int, CharClass::Whitespace);
    }
    let t = sub_vec(l, 0, te);
    assert(t@ == trim_end(l@));
    let end = vec![':', 'e', 'n', 'd', ':'];
    assert(end@ == lit_end_drawer());
    if t.len() == 5 && has_prefix_ascii_ci_at(&t, 0, &end) {
        assert(t@.skip(0) == t@);
        return Some(LineToken::DrawerEnd);
    }
    assert(!eq_ascii_ci(t@, lit_end_drawer())) by {
        if t@.len() == 5 {
            assert(t@.skip(0) == t@);
        }
    }
    // `t` keeps the leading ':' because it is not whitespace.
    assert(te >= 1) by {
        if te == 0 {
            assert(in_class(l@[0], CharClass::Whitespace));
        }
    }
    let t1 = sub_vec(&t, 1, te);
    assert(t1@ == t@.skip(1));
    let c = find_from_exec(&t1, 0, CharClass::Colon);
    proof {
        lemma_find_from(t1@, 0, CharClass::Colon);
    }
    if c < t1.len() {
        let (alo, ahi) = trim_bounds(&t1, c + 1, t1.len());
        assert(t1@.subrange(c + 1, t1@.len() as int) == t1@.skip(c + 1));
        let name_ok = c > 0 && all_in_class_exec(&t1, 0, c, CharClass::DrawerName);
        assert(t1@.subrange(0, c as int) == t1@.take(c as int));
        if name_ok {
            let name = string_of_range(&t1, 0, c);
            if alo == ahi {
                return Some(LineToken::DrawerBegin(name));
            } else {
                let value = string_of_range(&t1, alo, ahi);
                return Some(LineToken::DrawerProperty { key: name, value });
            }
        }
    }
    None
}

fn is_rule(l: &Vec<char>) -> (b: bool)
    ensures
        b == spec_is_rule(l@),
{
    let (lo, hi) = trim_bounds(l, 0, l.len());
    assert(l@.subrange(0, l@.len() as int) == l@);
    hi - lo >= 5 && all_in_class_exec(l, lo, hi, CharClass::Dash)
}

fn list_token(l: &Vec<char>) -> (r: Option<LineToken>)
    requires
        encode_utf8(l@).len() <= usize::MAX,
    ensures
        match r {
            Some(t) => spec_list_token(l@) == Some(t@),
            None => spec_list_token(l@) is None,
        },
{
    let n = l.len();
    let ic = span_while_exec(l, 0, CharClass::Whitespace);
    proof {
        lemma_span_while(l@, 0, CharClass::Whitespace);
    }
    let indent = utf8_prefix_len(l, ic);
    let tail = sub_vec(l, ic, n);
    assert(tail@ == l@.skip(ic as int));
    let m = tail.len();
    if m >= 2 && (tail[0] == '-' || tail[0] == '+') && tail[1] == ' ' {
        let mut bullet = String::new();
        push_char(&mut bullet, tail[0]);
        let rest = string_of_range(&tail, 2, m);
        assert(tail@.subrange(2, m as int) == tail@.skip(2));
        return Some(LineToken::ListItem { indent, bullet, rest });
    }
    let d = span_while_exec(&tail, 0, CharClass::AsciiDigit);
    proof {
        lemma_span_while(tail@, 0, CharClass::AsciiDigit);
    }
    if d > 0 && m - d >= 2 && tail[d] == '.' && tail[d + 1] == ' ' {
        let mut bullet = string_of_range(&tail, 0, d);
        push_char(&mut bullet, '.');
        assert(tail@.subrange(0, d as int) == tail@.take(d as int));
        let rest = string_of_range(&tail, d + 2, m);
        assert(tail@.subrange(d + 2, m as int) == tail@.skip(d + 2));
        return Some(LineToken::ListItem { indent, bullet, rest });
    }
    None
}

/// Classify a single source line.
pub fn tokenize_line(line: &str) -> (r: LineToken)
    requires
        encode_utf8(line@).len() <= usize::MAX,
    ensures
        r@ == spec_tokenize(line@),
{
    let l = chars_of(line);
    tokenize_chars(&l)
}

/// `tokenize_line` on the characters of a line.
pub fn tokenize_chars(l: &Vec<char>) -> (r: LineToken)
    requires
        encode_utf8(l@).len() <= usize::MAX,
    ensures
        r@ == spec_tokenize(l@),
{
    let n = l.len();
    let (lo, hi) = trim_bounds(l, 0, n);
    assert(l@.subrange(0, n as int) == l@);
    if lo == hi {
        return LineToken::Blank;
    }
    if let Some(t) = headline_token(l) {
        return t;
    }
    if n >= 2 && l[0] == '#' && l[1] == '+' {
        let rest = sub_vec(l, 2, n);
        assert(rest@ == l@.skip(2));
        return hash_token(&rest);
    }
    if n > 0 && l[0] == ':' {
        if let Some(t) = drawer_token(l) {
            return t;
        }
    }
    if is_rule(l) {
        return LineToken::HorizontalRule;
    }
    if let Some(t) = list_token(l) {
        return t;
    }
    let text = string_of_range(l, 0, n);
    LineToken::Text(text)
}

} // verus!
