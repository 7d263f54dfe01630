//! Inline markup: emphasis, code, links and timestamps inside a line.
use vstd::prelude::*;
use crate::document::{
    inlines_view, lemma_inline_view, Inline, InlineV, Link, Timestamp, TimestampKind,
};
use crate::text::{
    char_is_alphanumeric, chars_of, find_from, find_from_exec, is_alphanumeric, is_ascii_digit,
    is_whitespace, lemma_find_from, push_char, spec_is_ascii_digit, spec_is_whitespace,
    string_of_range, CharClass,
};

verus! {

/// The characters that open and close emphasis, code and verbatim spans.
pub open spec fn is_marker(c: char) -> bool {
    c == '*' || c == '/' || c == '_' || c == '+' || c == '=' || c == '~'
}

/// Pending plain text becomes a `Text` element unless it is empty.
pub open spec fn flush(buf: Seq<char>) -> Seq<InlineV> {
    if buf.len() == 0 {
        seq![]
    } else {
        seq![InlineV::Text(buf)]
    }
}

/// The shape of a link opening with `[[` at `i`: the index of the `]` that
/// ends the URL, the index of the `]` that ends the description (the URL's
/// own `]` when there is no description), and whether a description is
/// present. The link ends two characters after the second index.
pub open spec fn link_shape(s: Seq<char>, i: int) -> Option<(int, int, bool)> {
    let j = find_from(s, i + 2, CharClass::CloseBracket);
    if j >= s.len() || j + 1 >= s.len() {
        None
    } else if s[j + 1] == ']' {
        Some((j, j, false))
    } else if s[j + 1] == '[' {
        let d1 = find_from(s, j + 2, CharClass::CloseBracket);
        if d1 >= s.len() || d1 + 1 >= s.len() || s[d1 + 1] != ']' {
            None
        } else {
            Some((j, d1, true))
        }
    } else {
        None
    }
}

/// The first index `k` in `[from, end)` that can close a span opened by
/// `marker`: `marker` itself, not after whitespace, not before an
/// alphanumeric character; `end` when there is none.
pub open spec fn close_scan(s: Seq<char>, marker: char, k: int, end: int) -> int
    decreases end - k,
{
    if k >= end || k < 1 || end > s.len() {
        end
    } else if s[k] == marker && !spec_is_whitespace(s[k - 1]) && (k + 1 >= end
        || !char_is_alphanumeric(s[k + 1])) {
        k
    } else {
        close_scan(s, marker, k + 1, end)
    }
}

/// Where the span opened by the marker at `i` closes (`end` if it does not):
/// the content must not begin with whitespace.
pub open spec fn markup_close(s: Seq<char>, i: int, end: int) -> int {
    if i + 1 >= end || spec_is_whitespace(s[i + 1]) {
        end
    } else {
        close_scan(s, s[i], i + 2, end)
    }
}

/// The element a marker builds from its parsed content and its raw content.
pub open spec fn markup_inline(marker: char, inner: Seq<InlineV>, raw: Seq<char>) -> InlineV {
    if marker == '*' {
        InlineV::Bold(inner)
    } else if marker == '/' {
        InlineV::Italic(inner)
    } else if marker == '_' {
        InlineV::Underline(inner)
    } else if marker == '+' {
        InlineV::Strikethrough(inner)
    } else if marker == '=' {
        InlineV::Verbatim(raw)
    } else {
        InlineV::Code(raw)
    }
}

/// The index of the `>` closing an active timestamp opened at `i`.
pub open spec fn active_close(s: Seq<char>, i: int) -> Option<int> {
    let j = find_from(s, i + 1, CharClass::GreaterOrNewline);
    if j < s.len() && s[j] == '>' {
        Some(j)
    } else {
        None
    }
}

/// `NNNN-NN-NN` at the start of `t`.
pub open spec fn date_prefix(t: Seq<char>) -> bool {
    &&& t.len() >= 10
    &&& spec_is_ascii_digit(t[0]) && spec_is_ascii_digit(t[1]) && spec_is_ascii_digit(t[2])
        && spec_is_ascii_digit(t[3])
    &&& t[4] == '-'
    &&& spec_is_ascii_digit(t[5]) && spec_is_ascii_digit(t[6])
    &&& t[7] == '-'
    &&& spec_is_ascii_digit(t[8]) && spec_is_ascii_digit(t[9])
}

/// The index of the `]` closing an inactive timestamp `[YYYY-MM-DD …]` opened at `i`.
pub open spec fn inactive_close(s: Seq<char>, i: int) -> Option<int> {
    if i + 1 >= s.len() || !spec_is_ascii_digit(s[i + 1]) {
        None
    } else {
        let j = find_from(s, i + 1, CharClass::CloseBracketOrNewline);
        if j < s.len() && s[j] == ']' && date_prefix(s.subrange(i + 1, j)) {
            Some(j)
        } else {
            None
        }
    }
}

/// The inline elements of `s[i..end]` inside a span that began at `start`,
/// with `buf` the plain text gathered so far.
///
/// Links and timestamps are scanned to the end of `s`, not of the span: a
/// link inside emphasis may run past the emphasis' closing marker.
pub open spec fn span_from(s: Seq<char>, start: int, i: int, end: int, buf: Seq<char>) -> Seq<InlineV>
    decreases s.len() - i,
{
    if 0 <= start <= i && i < end && end <= s.len() {
        let c = s[i];
        if c == '[' && i + 1 < end && s[i + 1] == '[' && link_shape(s, i) is Some {
            let (j, d1, has_desc) = link_shape(s, i)->0;
            proof {
                lemma_find_from(s, i + 2, CharClass::CloseBracket);
            }
            let url = s.subrange(i + 2, j);
            if has_desc {
                proof {
                    lemma_find_from(s, j + 2, CharClass::CloseBracket);
                }
                let desc = span_from(s, j + 2, j + 2, d1, seq![]);
                flush(buf) + seq![InlineV::Link { url, description: Some(desc) }] + span_from(
                    s,
                    start,
                    d1 + 2,
                    end,
                    seq![],
                )
            } else {
                flush(buf) + seq![InlineV::Link { url, description: None }] + span_from(
                    s,
                    start,
                    j + 2,
                    end,
                    seq![],
                )
            }
        } else if is_marker(c) && (i == start || !char_is_alphanumeric(s[i - 1])) && markup_close(
            s,
            i,
            end,
        ) < end {
            let close = markup_close(s, i, end);
            proof {
                lemma_close_scan(s, c, i + 2, end);
            }
            let inner = span_from(s, i + 1, i + 1, close, seq![]);
            flush(buf) + seq![markup_inline(c, inner, s.subrange(i + 1, close))] + span_from(
                s,
                start,
                close + 1,
                end,
                seq![],
            )
        } else if c == '<' && active_close(s, i) is Some {
            let j = active_close(s, i)->0;
            proof {
                lemma_find_from(s, i + 1, CharClass::GreaterOrNewline);
            }
            flush(buf) + seq![
                InlineV::Timestamp { kind: TimestampKind::Active, inner: s.subrange(i + 1, j) },
            ] + span_from(s, start, j + 1, end, seq![])
        } else if c == '[' && i + 1 < end && s[i + 1] != '[' && inactive_close(s, i) is Some {
            let j = inactive_close(s, i)->0;
            proof {
                lemma_find_from(s, i + 1, CharClass::CloseBracketOrNewline);
            }
            flush(buf) + seq![
                InlineV::Timestamp { kind: TimestampKind::Inactive, inner: s.subrange(i + 1, j) },
            ] + span_from(s, start, j + 1, end, seq![])
        } else {
            span_from(s, start, i + 1, end, buf.push(c))
        }
    } else {
        flush(buf)
    }
}

/// The inline elements of `s[start..end]`.
pub open spec fn spec_span(s: Seq<char>, start: int, end: int) -> Seq<InlineV> {
    span_from(s, start, start, end, seq![])
}

/// The inline elements of a whole string.
pub open spec fn spec_parse_inline(s: Seq<char>) -> Seq<InlineV> {
    spec_span(s, 0, s.len() as int)
}

pub proof fn lemma_close_scan(s: Seq<char>, marker: char, k: int, end: int)
    ensures
        k < end ==> k <= close_scan(s, marker, k, end) <= end,
        k >= end ==> close_scan(s, marker, k, end) == end,
    decreases end - k,
{
    if k >= end || k < 1 || end > s.len() {
    } else if s[k] == marker && !spec_is_whitespace(s[k - 1]) && (k + 1 >= end
        || !char_is_alphanumeric(s[k + 1])) {
    } else {
        lemma_close_scan(s, marker, k + 1, end);
    }
}

/// Parse an org-mode inline string into a sequence of `Inline` elements.
pub fn parse_inline(text: &str) -> (r: Vec<Inline>)
    ensures
        inlines_view(r@) == spec_parse_inline(text@),
{
    let chars = chars_of(text);
    parse_span(&chars, 0, chars.len())
}

/// `parse_inline` on the characters of a string.
pub fn parse_inline_chars(chars: &Vec<char>) -> (r: Vec<Inline>)
    ensures
        inlines_view(r@) == spec_parse_inline(chars@),
{
    parse_span(chars, 0, chars.len())
}

fn flush_text(buf: &mut String, out: &mut Vec<Inline>)
    ensures
        inlines_view(final(out)@) == inlines_view(old(out)@) + flush(old(buf)@),
        final(buf)@ == Seq::<char>::empty(),
{
    if !buf.as_str().is_empty() {
        let t = buf.clone();
        *buf = String::new();
        out.push(Inline::Text(t));
        assert(inlines_view(out@) =~= inlines_view(old(out)@) + flush(old(buf)@));
    } else {
        *buf = String::new();
        assert(inlines_view(out@) =~= inlines_view(old(out)@) + flush(old(buf)@));
    }
}

proof fn lemma_push_views(r: Seq<Inline>, x: Inline)
    ensures
        inlines_view(r.push(x)) == inlines_view(r) + seq![x@],
{
    assert(inlines_view(r.push(x)) =~= inlines_view(r) + seq![x@]);
}

/// The inline elements of `chars[start..end]`.
fn parse_span(chars: &Vec<char>, start: usize, end: usize) -> (r: Vec<Inline>)
    requires
        start <= end <= chars@.len(),
    ensures
        inlines_view(r@) == spec_span(chars@, start as int, end as int),
    decreases chars@.len() - start, 2nat,
{
    let ghost s = chars@;
    let mut result: Vec<Inline> = Vec::new();
    let mut i = start;
    let mut text_buf = String::new();
    while i < end
        invariant
            start <= i,
            end <= s.len(),
            s == chars@,
            s.len() == chars.len(),
            spec_span(s, start as int, end as int) == inlines_view(result@) + span_from(
                s,
                start as int,
                i as int,
                end as int,
                text_buf@,
            ),
        decreases s.len() - i,
    {
        let c = chars[i];
        if c == '[' && i + 1 < end && chars[i + 1] == '[' {
            if let Some((link, next)) = try_link(chars, i) {
                let ghost buf0 = text_buf@;
                let ghost r0 = result@;
                let ghost rest = span_from(s, start as int, next as int, end as int, seq![]);
                assert(span_from(s, start as int, i as int, end as int, buf0) == flush(buf0) + seq![
                    Inline::Link(link)@,
                ] + rest) by {
                    lemma_inline_view(Inline::Link(link));
                }
                flush_text(&mut text_buf, &mut result);
                let x = Inline::Link(link);
                proof {
                    lemma_push_views(result@, x);
                }
                result.push(x);
                i = next;
                assert(inlines_view(r0) + (flush(buf0) + seq![x@] + rest) == inlines_view(result@)
                    + rest);
                continue;
            }
        }
        if c == '*' || c == '/' || c == '_' || c == '+' || c == '=' || c == '~' {
            let pre_ok = i == start || !is_alphanumeric(chars[i - 1]);
            if pre_ok {
                if let Some((inline, next)) = try_markup(chars, i, end) {
                    let ghost buf0 = text_buf@;
                    let ghost r0 = result@;
                    let ghost rest = span_from(s, start as int, next as int, end as int, seq![]);
                    assert(span_from(s, start as int, i as int, end as int, buf0) == flush(buf0)
                        + seq![inline@] + rest);
                    flush_text(&mut text_buf, &mut result);
                    proof {
                        lemma_push_views(result@, inline);
                    }
                    result.push(inline);
                    i = next;
                    assert(inlines_view(r0) + (flush(buf0) + seq![inline@] + rest)
                        == inlines_view(result@) + rest);
                    continue;
                }
            }
        }
        if c == '<' {
            if let Some((ts, next)) = try_timestamp(chars, i, TimestampKind::Active, '<', '>') {
                let ghost buf0 = text_buf@;
                let ghost r0 = result@;
                let ghost rest = span_from(s, start as int, next as int, end as int, seq![]);
                let x = Inline::Timestamp(ts);
                assert(span_from(s, start as int, i as int, end as int, buf0) == flush(buf0) + seq![
                    x@,
                ] + rest);
                flush_text(&mut text_buf, &mut result);
                proof {
                    lemma_push_views(result@, x);
                }
                result.push(x);
                i = next;
                assert(inlines_view(r0) + (flush(buf0) + seq![x@] + rest) == inlines_view(result@)
                    + rest);
                continue;
            }
        }
        if c == '[' && i + 1 < end && chars[i + 1] != '[' {
            if let Some((ts, next)) = try_inactive_timestamp(chars, i) {
                let ghost buf0 = text_buf@;
                let ghost r0 = result@;
                let ghost rest = span_from(s, start as int, next as int, end as int, seq![]);
                let x = Inline::Timestamp(ts);
                assert(span_from(s, start as int, i as int, end as int, buf0) == flush(buf0) + seq![
                    x@,
                ] + rest);
                flush_text(&mut text_buf, &mut result);
                proof {
                    lemma_push_views(result@, x);
                }
                result.push(x);
                i = next;
                assert(inlines_view(r0) + (flush(buf0) + seq![x@] + rest) == inlines_view(result@)
                    + rest);
                continue;
            }
        }
        assert(span_from(s, start as int, i as int, end as int, text_buf@) == span_from(
            s,
            start as int,
            i + 1,
            end as int,
            text_buf@.push(c),
        ));
        push_char(&mut text_buf, c);
        i += 1;
    }
    let ghost r0 = result@;
    flush_text(&mut text_buf, &mut result);
    result
}

/// Try to parse an inline markup span starting at `start`.
/// Returns `(Inline, next_pos)` or `None` if not valid markup.
fn try_markup(chars: &Vec<char>, start: usize, end: usize) -> (r: Option<(Inline, usize)>)
    requires
        start < end <= chars@.len(),
        is_marker(chars@[start as int]),
    ensures
        match r {
            Some((x, next)) => {
                let close = markup_close(chars@, start as int, end as int);
                &&& close < end
                &&& next == close + 1
                &&& start < next <= end
                &&& x@ == markup_inline(
                    chars@[start as int],
                    spec_span(chars@, start + 1, close),
                    chars@.subrange(start + 1, close),
                )
            },
            None => markup_close(chars@, start as int, end as int) >= end,
        },
    decreases chars@.len() - start, 1nat,
{
    let marker = chars[start];
    let content_start = start + 1;
    if content_start >= end {
        return None;
    }
    if is_whitespace(chars[content_start]) {
        return None;
    }
    let mut i = content_start + 1;
    while i < end
        invariant
            content_start + 1 <= i,
            start < end <= chars@.len(),
            marker == chars@[start as int],
            is_marker(chars@[start as int]),
            content_start == start + 1,
            content_start < end,
            markup_close(chars@, start as int, end as int) == close_scan(
                chars@,
                marker,
                i as int,
                end as int,
            ),
        decreases end - i,
    {
        if chars[i] == marker && !is_whitespace(chars[i - 1]) {
            let post_ok = i + 1 >= end || !is_alphanumeric(chars[i + 1]);
            if post_ok {
                let inline = build_markup(marker, chars, content_start, i);
                return Some((inline, i + 1));
            }
        }
        i += 1;
    }
    None
}

fn build_markup(marker: char, chars: &Vec<char>, from: usize, to: usize) -> (r: Inline)
    requires
        1 <= from <= to <= chars@.len(),
        is_marker(marker),
    ensures
        r@ == markup_inline(marker, spec_span(chars@, from as int, to as int), chars@.subrange(
            from as int,
            to as int,
        )),
    decreases chars@.len() - from + 1, 0nat,
{
    let r = if marker == '*' {
        Inline::Bold(parse_span(chars, from, to))
    } else if marker == '/' {
        Inline::Italic(parse_span(chars, from, to))
    } else if marker == '_' {
        Inline::Underline(parse_span(chars, from, to))
    } else if marker == '+' {
        Inline::Strikethrough(parse_span(chars, from, to))
    } else if marker == '=' {
        Inline::Verbatim(string_of_range(chars, from, to))
    } else {
        Inline::Code(string_of_range(chars, from, to))
    };
    proof {
        lemma_inline_view(r);
    }
    r
}

/// Try to parse `[[url]]` or `[[url][desc]]` at position `start`.
fn try_link(chars: &Vec<char>, start: usize) -> (r: Option<(Link, usize)>)
    requires
        start + 1 < chars@.len(),
        chars@[start as int] == '[',
        chars@[start + 1] == '[',
    ensures
        match r {
            Some((l, next)) => {
                &&& link_shape(chars@, start as int) is Some
                &&& Inline::Link(l)@ == (InlineV::Link {
                    url: chars@.subrange(start + 2, (link_shape(chars@, start as int)->0).0),
                    description: if (link_shape(chars@, start as int)->0).2 {
                        Some(
                            spec_span(
                                chars@,
                                (link_shape(chars@, start as int)->0).0 + 2,
                                (link_shape(chars@, start as int)->0).1,
                            ),
                        )
                    } else {
                        None
                    },
                })
                &&& next == (link_shape(chars@, start as int)->0).1 + 2
                &&& start < next <= chars@.len()
            },
            None => link_shape(chars@, start as int) is None,
        },
    decreases chars@.len() - start, 1nat,
{
    let n = chars.len();
    let mut i = start + 2;
    let url_start = i;
    i = find_from_exec(chars, i, CharClass::CloseBracket);
    proof {
        lemma_find_from(chars@, start + 2, CharClass::CloseBracket);
    }
    if i >= n {
        return None;
    }
    let url = string_of_range(chars, url_start, i);
    let j = i;
    i += 1;
    if i >= n {
        return None;
    }
    if chars[i] == ']' {
        let l = Link { url, description: None };
        proof {
            lemma_inline_view(Inline::Link(l));
            assert(link_shape(chars@, start as int) == Some((j as int, j as int, false)));
        }
        return Some((l, i + 1));
    } else if chars[i] == '[' {
        i += 1;
        let desc_start = i;
        i = find_from_exec(chars, i, CharClass::CloseBracket);
        proof {
            lemma_find_from(chars@, desc_start as int, CharClass::CloseBracket);
        }
        if i >= n {
            return None;
        }
        let d1 = i;
        let desc = parse_span(chars, desc_start, i);
        i += 1;
        if i >= n || chars[i] != ']' {
            return None;
        }
        let l = Link { url, description: Some(desc) };
        proof {
            lemma_inline_view(Inline::Link(l));
            assert(link_shape(chars@, start as int) == Some((j as int, d1 as int, true)));
            assert(url@ == chars@.subrange(start + 2, j as int));
            assert(inlines_view(desc@) == spec_span(chars@, j + 2, d1 as int));
            assert(Inline::Link(l)@ == (InlineV::Link {
                    url: chars@.subrange(start + 2, j as int),
                    description: Some(spec_span(chars@, j + 2, d1 as int)),
                }));
        }
        return Some((l, i + 1));
    }
    None
}

/// Try to parse an active `<…>` or inactive `[…]` timestamp.
fn try_timestamp(chars: &Vec<char>, start: usize, kind: TimestampKind, open: char, close: char) -> (r:
    Option<(Timestamp, usize)>)
    requires
        start < chars@.len(),
        chars@[start as int] == open,
        kind == TimestampKind::Active,
        open == '<',
        close == '>',
    ensures
        match r {
            Some((t, next)) => {
                let j = active_close(chars@, start as int)->0;
                &&& active_close(chars@, start as int) is Some
                &&& t.kind == kind
                &&& t.inner@ == chars@.subrange(start + 1, j)
                &&& next == j + 1
                &&& start < next <= chars@.len()
            },
            None => active_close(chars@, start as int) is None,
        },
{
    let n = chars.len();
    let inner_start = start + 1;
    let i = find_from_exec(chars, inner_start, CharClass::GreaterOrNewline);
    proof {
        lemma_find_from(chars@, inner_start as int, CharClass::GreaterOrNewline);
    }
    if i >= n || chars[i] != close {
        return None;
    }
    let inner = string_of_range(chars, inner_start, i);
    Some((Timestamp { kind, inner }, i + 1))
}

/// Try to parse an inactive timestamp `[YYYY-MM-DD …]` at position `start`.
/// Requires the content to start with four digits and a dash.
fn try_inactive_timestamp(chars: &Vec<char>, start: usize) -> (r: Option<(Timestamp, usize)>)
    requires
        start < chars@.len(),
        chars@[start as int] == '[',
    ensures
        match r {
            Some((t, next)) => {
                let j = inactive_close(chars@, start as int)->0;
                &&& inactive_close(chars@, start as int) is Some
                &&& t.kind == TimestampKind::Inactive
                &&& t.inner@ == chars@.subrange(start + 1, j)
                &&& next == j + 1
                &&& start < next <= chars@.len()
            },
            None => inactive_close(chars@, start as int) is None,
        },
{
    let n = chars.len();
    if start + 1 >= n || !is_ascii_digit(chars[start + 1]) {
        return None;
    }
    let inner_start = start + 1;
    let i = find_from_exec(chars, inner_start, CharClass::CloseBracketOrNewline);
    proof {
        lemma_find_from(chars@, inner_start as int, CharClass::CloseBracketOrNewline);
    }
    if i >= n || chars[i] != ']' {
        return None;
    }
    let ghost t = chars@.subrange(inner_start as int, i as int);
    let ok = i - inner_start >= 10 && is_ascii_digit(chars[inner_start]) && is_ascii_digit(
        chars[inner_start + 1],
    ) && is_ascii_digit(chars[inner_start + 2]) && is_ascii_digit(chars[inner_start + 3])
        && chars[inner_start + 4] == '-' && is_ascii_digit(chars[inner_start + 5]) && is_ascii_digit(
        chars[inner_start + 6],
    ) && chars[inner_start + 7] == '-' && is_ascii_digit(chars[inner_start + 8]) && is_ascii_digit(
        chars[inner_start + 9],
    );
    assert(ok == date_prefix(t));
    if ok {
        let inner = string_of_range(chars, inner_start, i);
        Some((Timestamp { kind: TimestampKind::Inactive, inner }, i + 1))
    } else {
        None
    }
}

} // verus!
