use clignote::document::{Block, CheckboxState, Inline, Keyword};
use clignote::parser::{parse, text_lines, try_parse};

fn text(s: &str) -> Inline {
    Inline::Text(s.to_string())
}

#[test]
fn parse_empty() {
    let doc = parse("");
    assert!(doc.keywords.is_empty());
    assert!(doc.sections.is_empty());
}

#[test]
fn parse_keywords() {
    let doc = parse("#+title: My File\n#+author: Damien\n");
    assert_eq!(doc.keywords[0], Keyword { key: "title".into(), value: "My File".into() });
    assert_eq!(doc.keywords[1], Keyword { key: "author".into(), value: "Damien".into() });
}

#[test]
fn parse_single_heading() {
    let doc = parse("* Hello\n");
    assert_eq!(doc.sections.len(), 1);
    let h = doc.sections[0].headline.as_ref().unwrap();
    assert_eq!(h.level, 1);
    assert_eq!(h.title, vec![text("Hello")]);
}

#[test]
fn parse_todo_heading() {
    let doc = parse("* TODO Buy groceries\n");
    let h = doc.sections[0].headline.as_ref().unwrap();
    assert_eq!(h.todo_keyword, Some("TODO".into()));
    assert_eq!(h.title, vec![text("Buy groceries")]);
}

#[test]
fn parse_heading_with_tags() {
    let doc = parse("* My heading :work:urgent:\n");
    let h = doc.sections[0].headline.as_ref().unwrap();
    assert_eq!(h.tags, vec!["work", "urgent"]);
    assert_eq!(h.title, vec![text("My heading")]);
}

#[test]
fn parse_nested_sections() {
    let src = "* Parent\n** Child\n*** Grandchild\n";
    let doc = parse(src);
    assert_eq!(doc.sections.len(), 1);
    assert_eq!(doc.sections[0].children.len(), 1);
    assert_eq!(doc.sections[0].children[0].children.len(), 1);
}

#[test]
fn parse_paragraph() {
    let doc = parse("* H\nLine one\nLine two\n");
    let content = &doc.sections[0].content;
    assert!(matches!(content[0], Block::Paragraph(_)));
}

#[test]
fn parse_src_block() {
    let src = "#+begin_src rust\nfn main() {}\n#+end_src\n";
    let doc = parse(src);
    let preamble = &doc.sections[0].content;
    assert!(matches!(preamble[0], Block::SrcBlock(_)));
    if let Block::SrcBlock(sb) = &preamble[0] {
        assert_eq!(sb.language, Some("rust".into()));
        assert_eq!(sb.body, "fn main() {}");
    }
}

#[test]
fn parse_properties_drawer() {
    let src = "* H\n:PROPERTIES:\n:ID: abc123\n:END:\n";
    let doc = parse(src);
    let content = &doc.sections[0].content;
    assert!(matches!(content[0], Block::PropertyDrawer(_)));
    if let Block::PropertyDrawer(props) = &content[0] {
        assert_eq!(props[0].key, "ID");
        assert_eq!(props[0].value, "abc123");
    }
}

#[test]
fn parse_unordered_list() {
    let src = "- alpha\n- beta\n- gamma\n";
    let doc = parse(src);
    let content = &doc.sections[0].content;
    assert!(matches!(content[0], Block::List(_)));
    if let Block::List(list) = &content[0] {
        assert_eq!(list.items.len(), 3);
    }
}

#[test]
fn parse_priority_and_checkboxes() {
    let doc = parse("* DONE [#A] Ship it\n- [X] built\n- [ ] tested\n- [-] half\n");
    let h = doc.sections[0].headline.as_ref().unwrap();
    assert_eq!(h.todo_keyword, Some("DONE".into()));
    assert_eq!(h.priority, Some('A'));
    assert_eq!(h.title, vec![text("Ship it")]);
    if let Block::List(list) = &doc.sections[0].content[0] {
        assert_eq!(list.items[0].checkbox, Some(CheckboxState::Checked));
        assert_eq!(list.items[0].content, vec![text("built")]);
        assert_eq!(list.items[1].checkbox, Some(CheckboxState::Unchecked));
        assert_eq!(list.items[2].checkbox, Some(CheckboxState::Partial));
    } else {
        panic!("expected a list");
    }
}

#[test]
fn parse_sibling_sections_after_deeper_child() {
    let doc = parse("* A\n** B\n* C\n");
    assert_eq!(doc.sections.len(), 2);
    assert_eq!(doc.sections[0].children.len(), 1);
    assert_eq!(doc.sections[1].children.len(), 0);
}

#[test]
fn parse_other_drawer_keeps_raw_lines() {
    let doc = parse("* H\n:LOGBOOK:\n- State \"DONE\"\n:END:\n");
    if let Block::Drawer { name, lines } = &doc.sections[0].content[0] {
        assert_eq!(name, "LOGBOOK");
        assert_eq!(lines, &vec!["- State \"DONE\"".to_string()]);
    } else {
        panic!("expected a drawer");
    }
}

#[test]
fn parse_unterminated_src_block_runs_to_end() {
    let doc = parse("#+begin_src\nline\n");
    if let Block::SrcBlock(sb) = &doc.sections[0].content[0] {
        assert_eq!(sb.language, None);
        assert_eq!(sb.body, "line");
    } else {
        panic!("expected a source block");
    }
}

#[test]
fn parse_crlf_lines() {
    let doc = parse("* Title\r\nbody\r\n");
    let h = doc.sections[0].headline.as_ref().unwrap();
    assert_eq!(h.title, vec![text("Title")]);
    assert_eq!(doc.sections[0].content.len(), 1);
}

#[test]
fn text_lines_split_like_str_lines() {
    assert_eq!(text_lines("a\r\nb\n\nc\n"), vec!["a", "b", "", "c"]);
    assert!(text_lines("").is_empty());
    assert_eq!(text_lines("\n"), vec![""]);
}

#[test]
fn try_parse_refuses_inputs_the_parser_cannot_finish() {
    assert!(try_parse("* H\n#+TITLE: x\n").is_none());
    assert!(try_parse("#+end_src\n").is_none());
    assert!(try_parse(":END:\n").is_none());
    let doc = try_parse("#+TITLE: x\n* H\nbody\n").unwrap();
    assert_eq!(doc, parse("#+TITLE: x\n* H\nbody\n"));
    assert_eq!(doc.keywords.len(), 1);
}

#[test]
fn sections_nest_under_shallower_headlines() {
    let doc = parse("intro\n* A\n** B\n*** C\n** D\n* E\n");
    assert_eq!(doc.sections.len(), 3);
    assert!(doc.sections[0].headline.is_none() && doc.sections[0].children.is_empty());
    let a = &doc.sections[1];
    assert_eq!(a.headline.as_ref().unwrap().level, 1);
    assert_eq!(a.children.len(), 2);
    assert_eq!(a.children[0].headline.as_ref().unwrap().level, 2);
    assert_eq!(a.children[0].children[0].headline.as_ref().unwrap().level, 3);
    assert_eq!(a.children[1].headline.as_ref().unwrap().level, 2);
}
