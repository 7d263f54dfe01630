use clignote::document::{Inline, Link, Timestamp, TimestampKind};
use clignote::inline::parse_inline;

#[test]
fn plain_text() {
    assert_eq!(parse_inline("hello"), vec![Inline::Text("hello".into())]);
}

#[test]
fn bold() {
    assert_eq!(
        parse_inline("*bold*"),
        vec![Inline::Bold(vec![Inline::Text("bold".into())])]
    );
}

#[test]
fn italic() {
    assert_eq!(
        parse_inline("/italic/"),
        vec![Inline::Italic(vec![Inline::Text("italic".into())])]
    );
}

#[test]
fn code() {
    assert_eq!(parse_inline("~code~"), vec![Inline::Code("code".into())]);
}

#[test]
fn verbatim() {
    assert_eq!(parse_inline("=verb="), vec![Inline::Verbatim("verb".into())]);
}

#[test]
fn link_bare() {
    assert_eq!(
        parse_inline("[[https://example.com]]"),
        vec![Inline::Link(Link { url: "https://example.com".into(), description: None })]
    );
}

#[test]
fn link_with_desc() {
    assert_eq!(
        parse_inline("[[https://example.com][Example]]"),
        vec![Inline::Link(Link {
            url: "https://example.com".into(),
            description: Some(vec![Inline::Text("Example".into())]),
        })]
    );
}

#[test]
fn mixed() {
    let result = parse_inline("Hello *world* and ~code~");
    assert_eq!(
        result,
        vec![
            Inline::Text("Hello ".into()),
            Inline::Bold(vec![Inline::Text("world".into())]),
            Inline::Text(" and ".into()),
            Inline::Code("code".into()),
        ]
    );
}

#[test]
fn no_markup_in_word() {
    // 'he' precedes '*', so the opening marker does not count — plain text.
    let result = parse_inline("he*llo*world");
    assert_eq!(result, vec![Inline::Text("he*llo*world".into())]);
}

#[test]
fn active_timestamp() {
    let result = parse_inline("<2026-03-05 Thu>");
    assert_eq!(
        result,
        vec![Inline::Timestamp(Timestamp {
            kind: TimestampKind::Active,
            inner: "2026-03-05 Thu".into(),
        })]
    );
}

#[test]
fn inactive_timestamp() {
    assert_eq!(
        parse_inline("[2026-03-05 Thu]"),
        vec![Inline::Timestamp(Timestamp {
            kind: TimestampKind::Inactive,
            inner: "2026-03-05 Thu".into(),
        })]
    );
}

#[test]
fn bracket_that_is_not_a_date_stays_text() {
    assert_eq!(parse_inline("[note]"), vec![Inline::Text("[note]".into())]);
}

#[test]
fn underline_and_strikethrough() {
    assert_eq!(
        parse_inline("_u_ +s+"),
        vec![
            Inline::Underline(vec![Inline::Text("u".into())]),
            Inline::Text(" ".into()),
            Inline::Strikethrough(vec![Inline::Text("s".into())]),
        ]
    );
}

#[test]
fn nested_emphasis() {
    assert_eq!(
        parse_inline("*a /b/ c*"),
        vec![Inline::Bold(vec![
            Inline::Text("a ".into()),
            Inline::Italic(vec![Inline::Text("b".into())]),
            Inline::Text(" c".into()),
        ])]
    );
}

#[test]
fn unclosed_marker_is_text() {
    assert_eq!(parse_inline("*open"), vec![Inline::Text("*open".into())]);
}

#[test]
fn empty_line_has_no_inlines() {
    assert_eq!(parse_inline(""), Vec::<Inline>::new());
}

#[test]
fn link_with_emphasis_in_description() {
    assert_eq!(
        parse_inline("[[u][*b*]]"),
        vec![Inline::Link(Link {
            url: "u".into(),
            description: Some(vec![Inline::Bold(vec![Inline::Text("b".into())])]),
        })]
    );
}

#[test]
fn inline_roundtrip_of_mixed_text() {
    let src = "see *bold* and [[https://x.org][/it/]] on <2026-01-02 Fri>";
    let parsed = parse_inline(src);
    assert_eq!(clignote::serializer::serialize_inlines(&parsed), src);
}

#[test]
fn inline_overshoot_is_not_written_back() {
    let src = "*[[a*]]*";
    let parsed = parse_inline(src);
    assert_eq!(
        parsed,
        vec![
            Inline::Bold(vec![Inline::Link(Link { url: "a*".into(), description: None })]),
            Inline::Text("]]*".into()),
        ]
    );
    assert_eq!(clignote::serializer::serialize_inlines(&parsed), "*[[a*]]*]]*");
}
