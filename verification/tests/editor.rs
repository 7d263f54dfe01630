use clignote::editor::{is_web_url, split_file_command, Mode, PaneLayout, SplitDir};

#[test]
fn mode_labels() {
    assert_eq!(Mode::Normal.label(), "NORMAL");
    assert_eq!(Mode::Visual { line_wise: true }.label(), "V-LINE");
    assert_eq!(Mode::Visual { line_wise: false }.label(), "VISUAL");
    assert_eq!(Mode::BufferList.label(), "BUFFERS");
}

#[test]
fn file_commands_split() {
    assert_eq!(
        split_file_command("e notes/foo"),
        Some(("e ".to_string(), "notes/foo".to_string()))
    );
    assert_eq!(split_file_command("edit!  x "), Some(("edit! ".to_string(), "x".to_string())));
    assert_eq!(split_file_command("w"), Some(("w ".to_string(), "".to_string())));
    assert_eq!(split_file_command("wq"), None);
    assert_eq!(split_file_command("e!foo"), None);
}

#[test]
fn web_urls() {
    assert!(is_web_url("https://example.com"));
    assert!(is_web_url("mailto:me@example.com"));
    assert!(!is_web_url("file:notes.org"));
    assert!(!is_web_url("notes/http://x"));
}

#[test]
fn layout_split_remove_renumber() {
    let mut l = PaneLayout::Leaf(0);
    assert!(l.split_leaf(0, 1, SplitDir::Vertical));
    assert_eq!(l.leaves(), vec![0, 1]);
    assert!(l.split_leaf(1, 2, SplitDir::Horizontal));
    assert_eq!(l.leaves(), vec![0, 1, 2]);
    assert!(!l.split_leaf(7, 3, SplitDir::Horizontal));
    l.remove_leaf(1);
    assert_eq!(l.leaves(), vec![0, 2]);
    l.renumber_after_removal(1);
    assert_eq!(
        l,
        PaneLayout::Split {
            dir: SplitDir::Vertical,
            children: vec![PaneLayout::Leaf(0), PaneLayout::Leaf(1)],
        }
    );
}

#[test]
fn removing_from_two_pane_split_collapses() {
    let mut l = PaneLayout::Leaf(0);
    l.split_leaf(0, 1, SplitDir::Horizontal);
    l.remove_leaf(0);
    assert_eq!(l, PaneLayout::Leaf(1));
    l.renumber_after_removal(0);
    assert_eq!(l, PaneLayout::Leaf(0));
}
