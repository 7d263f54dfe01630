use clignote::lexer::{tokenize_line, LineToken};

#[test]
fn heading_level_1() {
    assert_eq!(
        tokenize_line("* Hello"),
        LineToken::Headline { level: 1, rest: "Hello".into() }
    );
}

#[test]
fn heading_level_3() {
    assert_eq!(
        tokenize_line("*** Deep"),
        LineToken::Headline { level: 3, rest: "Deep".into() }
    );
}

#[test]
fn keyword_line() {
    assert_eq!(
        tokenize_line("#+title: My Doc"),
        LineToken::Keyword { key: "title".into(), value: "My Doc".into() }
    );
}

#[test]
fn begin_src() {
    assert_eq!(
        tokenize_line("#+begin_src rust"),
        LineToken::BeginBlock { kind: "SRC".into(), params: "rust".into() }
    );
}

#[test]
fn end_src() {
    assert_eq!(tokenize_line("#+end_src"), LineToken::EndBlock("SRC".into()));
}

#[test]
fn drawer_begin() {
    assert_eq!(tokenize_line(":PROPERTIES:"), LineToken::DrawerBegin("PROPERTIES".into()));
}

#[test]
fn drawer_end() {
    assert_eq!(tokenize_line(":END:"), LineToken::DrawerEnd);
}

#[test]
fn property_line() {
    assert_eq!(
        tokenize_line(":CREATED: 2026-03-05"),
        LineToken::DrawerProperty { key: "CREATED".into(), value: "2026-03-05".into() }
    );
}

#[test]
fn list_unordered() {
    assert_eq!(
        tokenize_line("- item"),
        LineToken::ListItem { indent: 0, bullet: "-".into(), rest: "item".into() }
    );
}

#[test]
fn list_ordered() {
    assert_eq!(
        tokenize_line("1. first"),
        LineToken::ListItem { indent: 0, bullet: "1.".into(), rest: "first".into() }
    );
}

#[test]
fn horizontal_rule() {
    assert_eq!(tokenize_line("-----"), LineToken::HorizontalRule);
}

#[test]
fn blank_line() {
    assert_eq!(tokenize_line(""), LineToken::Blank);
    assert_eq!(tokenize_line("   "), LineToken::Blank);
}

#[test]
fn star_without_space_is_text() {
    assert_eq!(tokenize_line("*bold* text"), LineToken::Text("*bold* text".into()));
}

#[test]
fn list_indent_counts_bytes() {
    assert_eq!(
        tokenize_line("\u{3000}+ wide"),
        LineToken::ListItem { indent: 3, bullet: "+".into(), rest: "wide".into() }
    );
}

#[test]
fn begin_block_is_case_insensitive() {
    assert_eq!(
        tokenize_line("#+BEGIN_QUOTE"),
        LineToken::BeginBlock { kind: "QUOTE".into(), params: "".into() }
    );
}

#[test]
fn short_dash_run_is_not_a_rule() {
    assert_eq!(tokenize_line("----"), LineToken::Text("----".into()));
}

#[test]
fn keyword_without_colon_has_empty_value() {
    assert_eq!(
        tokenize_line("#+title"),
        LineToken::Keyword { key: "title".into(), value: "".into() }
    );
}

#[test]
fn end_line_with_uppercase_kind() {
    assert_eq!(tokenize_line("#+END_QUOTE"), LineToken::EndBlock("QUOTE".into()));
}

#[test]
fn end_drawer_is_case_insensitive() {
    assert_eq!(tokenize_line(":end:  "), LineToken::DrawerEnd);
}
