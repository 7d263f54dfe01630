use clignote::document::{Document, Headline, Inline, Keyword, Section};
use clignote::parser::parse;
use clignote::serializer::serialize;

fn roundtrip(src: &str) -> String {
    serialize(&parse(src))
}

#[test]
fn keyword_roundtrip() {
    let src = "#+title: Hello\n#+author: Damien\n";
    assert_eq!(roundtrip(src), src);
}

#[test]
fn heading_roundtrip() {
    let src = "* Hello\n";
    assert_eq!(roundtrip(src), src);
}

#[test]
fn todo_heading_roundtrip() {
    let src = "* TODO Buy groceries\n";
    assert_eq!(roundtrip(src), src);
}

#[test]
fn nested_headings_roundtrip() {
    let src = "* Parent\n** Child\n";
    assert_eq!(roundtrip(src), src);
}

#[test]
fn src_block_roundtrip() {
    let src = "#+begin_src rust\nfn main() {}\n#+end_src\n";
    assert_eq!(roundtrip(src), src);
}

#[test]
fn list_roundtrip() {
    let src = "- alpha\n- beta\n";
    assert_eq!(roundtrip(src), src);
}

#[test]
fn properties_roundtrip() {
    let src = "* H\n:PROPERTIES:\n:ID: abc\n:END:\n";
    assert_eq!(roundtrip(src), src);
}

#[test]
fn whole_file_roundtrip() {
    let src = "#+title: Notes\n\n* TODO [#B] Plan :work:\nSome *bold* text\n- [X] done\n- [ ] open\n-----\n** Sub\n:LOGBOOK:\nentry\n:END:\n";
    assert_eq!(roundtrip(src), "#+title: Notes\n\n* TODO [#B] Plan  :work:\nSome *bold* text\n- [X] done\n- [ ] open\n-----\n** Sub\n:LOGBOOK:\nentry\n:END:\n");
}

#[test]
fn tags_are_written_after_two_spaces() {
    assert_eq!(roundtrip("* Title :a:b:\n"), "* Title  :a:b:\n");
}

#[test]
fn serialize_built_document() {
    let doc = Document {
        keywords: vec![Keyword { key: "author".into(), value: "Me".into() }],
        sections: vec![Section {
            headline: Some(Headline {
                level: 2,
                todo_keyword: None,
                priority: Some('C'),
                title: vec![Inline::Text("T".into())],
                tags: vec![],
            }),
            content: vec![],
            children: vec![],
        }],
    };
    assert_eq!(serialize(&doc), "#+author: Me\n** [#C] T\n");
}

#[test]
fn serialize_empty_document() {
    assert_eq!(serialize(&Document::default()), "");
}
