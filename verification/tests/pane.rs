use clignote::pane::Pane;

fn pane_with(lines: &[&str], row: usize, col: usize) -> Pane {
    let mut p = Pane::empty();
    p.lines = lines.iter().map(|l| l.to_string()).collect();
    p.cursor_row = row;
    p.cursor_col = col;
    p
}

fn text(p: &Pane) -> Vec<&str> {
    p.lines.iter().map(|l| l.as_str()).collect()
}

#[test]
fn empty_pane_has_one_blank_line() {
    let p = Pane::empty();
    assert_eq!(text(&p), vec![""]);
    assert_eq!((p.cursor_row, p.cursor_col, p.viewport_top), (0, 0, 0));
    assert!(p.file_path.is_none());
    assert!(!p.modified);
}

#[test]
fn current_line_len_counts_bytes() {
    let p = pane_with(&["héllo"], 0, 0);
    assert_eq!(p.current_line_len(), 6);
    let q = pane_with(&["a"], 3, 0);
    assert_eq!(q.current_line_len(), 0);
}

#[test]
fn move_right_stops_at_last_byte() {
    let mut p = pane_with(&["ab"], 0, 0);
    p.move_right();
    assert_eq!(p.cursor_col, 1);
    p.move_right();
    assert_eq!(p.cursor_col, 1);
    p.move_left();
    p.move_left();
    assert_eq!(p.cursor_col, 0);
}

#[test]
fn move_down_clamps_row_and_column() {
    let mut p = pane_with(&["long line", "ab", "xyz"], 0, 7);
    p.move_down(1);
    assert_eq!((p.cursor_row, p.cursor_col), (1, 1));
    p.move_down(10);
    assert_eq!(p.cursor_row, 2);
    p.move_up(5);
    assert_eq!(p.cursor_row, 0);
}

#[test]
fn word_motions() {
    let mut p = pane_with(&["foo  bar baz"], 0, 0);
    p.move_word_forward();
    assert_eq!(p.cursor_col, 5);
    p.move_word_forward();
    assert_eq!(p.cursor_col, 9);
    p.move_word_forward();
    assert_eq!(p.cursor_col, 11);
    p.move_word_backward();
    assert_eq!(p.cursor_col, 9);
    p.move_word_backward();
    assert_eq!(p.cursor_col, 5);
    p.move_word_backward();
    assert_eq!(p.cursor_col, 0);
}

#[test]
fn line_and_file_motions() {
    let mut p = pane_with(&["abc", "defgh"], 0, 1);
    p.move_line_end();
    assert_eq!(p.cursor_col, 2);
    p.move_line_start();
    assert_eq!(p.cursor_col, 0);
    p.cursor_col = 4;
    p.move_file_end();
    assert_eq!((p.cursor_row, p.cursor_col), (1, 4));
    p.move_file_start();
    assert_eq!((p.cursor_row, p.cursor_col), (0, 0));
}

#[test]
fn scroll_follows_cursor() {
    let mut p = pane_with(&["a"; 30], 25, 0);
    p.scroll_to_cursor(10);
    assert_eq!(p.viewport_top, 16);
    p.cursor_row = 3;
    p.scroll_to_cursor(10);
    assert_eq!(p.viewport_top, 3);
    p.scroll_to_cursor(0);
    assert_eq!(p.viewport_top, 3);
}

#[test]
fn insert_and_backspace() {
    let mut p = pane_with(&["ac"], 0, 1);
    p.insert_char('b');
    assert_eq!(text(&p), vec!["abc"]);
    assert_eq!(p.cursor_col, 2);
    assert!(p.modified);
    p.delete_char_before();
    assert_eq!(text(&p), vec!["ac"]);
    assert_eq!(p.cursor_col, 1);
}

#[test]
fn insert_multibyte_char() {
    let mut p = pane_with(&["ab"], 0, 1);
    p.insert_char('é');
    assert_eq!(text(&p), vec!["aéb"]);
    assert_eq!(p.cursor_col, 2);
}

#[test]
fn backspace_at_line_start_joins_lines() {
    let mut p = pane_with(&["one", "two"], 1, 0);
    p.delete_char_before();
    assert_eq!(text(&p), vec!["onetwo"]);
    assert_eq!((p.cursor_row, p.cursor_col), (0, 3));
    let mut q = pane_with(&["x"], 0, 0);
    q.delete_char_before();
    assert_eq!(text(&q), vec!["x"]);
    assert!(!q.modified);
}

#[test]
fn newline_splits_line() {
    let mut p = pane_with(&["hello world"], 0, 5);
    p.insert_newline();
    assert_eq!(text(&p), vec!["hello", " world"]);
    assert_eq!((p.cursor_row, p.cursor_col), (1, 0));
    p.delete_char_before();
    assert_eq!(text(&p), vec!["hello world"]);
    assert_eq!((p.cursor_row, p.cursor_col), (0, 5));
}

#[test]
fn open_lines() {
    let mut p = pane_with(&["a", "b"], 0, 1);
    p.open_line_below();
    assert_eq!(text(&p), vec!["a", "", "b"]);
    assert_eq!((p.cursor_row, p.cursor_col), (1, 0));
    p.open_line_above();
    assert_eq!(text(&p), vec!["a", "", "", "b"]);
    assert_eq!((p.cursor_row, p.cursor_col), (1, 0));
}

#[test]
fn delete_line_keeps_one_line() {
    let mut p = pane_with(&["only"], 0, 2);
    assert_eq!(p.delete_line(), "only");
    assert_eq!(text(&p), vec![""]);
    assert_eq!(p.cursor_col, 0);
    let mut q = pane_with(&["a", "bb", "ccc"], 2, 2);
    assert_eq!(q.delete_line(), "ccc");
    assert_eq!(text(&q), vec!["a", "bb"]);
    assert_eq!((q.cursor_row, q.cursor_col), (1, 1));
}

#[test]
fn delete_lines_range_either_order() {
    let mut p = pane_with(&["a", "b", "c", "d"], 3, 0);
    let removed = p.delete_lines(2, 1);
    assert_eq!(removed, vec!["b".to_string(), "c".to_string()]);
    assert_eq!(text(&p), vec!["a", "d"]);
    assert_eq!(p.cursor_row, 1);
    let all = p.delete_lines(0, 99);
    assert_eq!(all.len(), 2);
    assert_eq!(text(&p), vec![""]);
    assert_eq!(p.cursor_row, 0);
}

#[test]
fn delete_char_selection_single_line() {
    let mut p = pane_with(&["abcdef"], 0, 0);
    let removed = p.delete_char_selection((0, 4), (0, 1));
    assert_eq!(removed, vec!["bcde".to_string()]);
    assert_eq!(text(&p), vec!["af"]);
    assert_eq!((p.cursor_row, p.cursor_col), (0, 1));
}

#[test]
fn delete_char_selection_multi_line() {
    let mut p = pane_with(&["first", "middle", "last"], 0, 0);
    let removed = p.delete_char_selection((0, 2), (2, 1));
    assert_eq!(
        removed,
        vec!["rst".to_string(), "middle".to_string(), "la".to_string()]
    );
    assert_eq!(text(&p), vec!["fist"]);
    assert_eq!((p.cursor_row, p.cursor_col), (0, 2));
}

#[test]
fn delete_char_selection_to_end_of_line() {
    let mut p = pane_with(&["ab", "cd", "z"], 0, 0);
    let removed = p.delete_char_selection((0, 1), (1, 9));
    assert_eq!(removed, vec!["b".to_string(), "cd".to_string()]);
    assert_eq!(text(&p), vec!["a", "z"]);
    assert_eq!(p.cursor_col, 0);
}

#[test]
fn yank_lines_and_paste() {
    let mut p = pane_with(&["a", "b", "c"], 0, 0);
    assert_eq!(p.yank_line(), "a");
    let reg = p.yank_lines(2, 1);
    assert_eq!(reg, vec!["b".to_string(), "c".to_string()]);
    p.paste_lines_after(&reg);
    assert_eq!(text(&p), vec!["a", "b", "c", "b", "c"]);
    assert_eq!(p.cursor_row, 1);
    p.paste_lines_before(&["x".to_string()]);
    assert_eq!(text(&p), vec!["a", "x", "b", "c", "b", "c"]);
    assert_eq!(p.cursor_row, 1);
    let far = pane_with(&["a"], 7, 0);
    assert_eq!(far.yank_line(), "");
}

#[test]
fn toggle_checkbox_cycles() {
    let mut p = pane_with(&["  - [ ] task"], 0, 0);
    p.toggle_checkbox();
    assert_eq!(text(&p), vec!["  - [X] task"]);
    p.toggle_checkbox();
    assert_eq!(text(&p), vec!["  - [ ] task"]);
    let mut q = pane_with(&["12. [-] part"], 0, 0);
    q.toggle_checkbox();
    assert_eq!(text(&q), vec!["12. [ ] part"]);
    let mut r = pane_with(&["- no box"], 0, 0);
    r.toggle_checkbox();
    assert_eq!(text(&r), vec!["- no box"]);
    assert!(!r.modified);
}

#[test]
fn from_text_splits_lines_and_keeps_one_line() {
    let p = Pane::from_text("* A\r\nb\n\nc", None);
    assert_eq!(p.lines, vec!["* A", "b", "", "c"]);
    assert_eq!((p.cursor_row, p.cursor_col, p.viewport_top, p.modified), (0, 0, 0, false));
    let e = Pane::from_text("", Some(std::path::PathBuf::from("x.org")));
    assert_eq!(e.lines, vec![""]);
    assert_eq!(e.file_path, Some(std::path::PathBuf::from("x.org")));
}

#[test]
fn contents_end_every_line_with_a_newline() {
    let p = Pane::from_text("a\nb", None);
    assert_eq!(p.contents(), "a\nb\n");
    assert_eq!(Pane::empty().contents(), "\n");
}

#[test]
fn saved_text_loads_back_unchanged() {
    let mut p = Pane::from_text("x\ny", None);
    p.lines = vec!["one".to_string(), String::new(), "- [ ] two".to_string()];
    let back = Pane::from_text(&p.contents(), None);
    assert_eq!(back.lines, p.lines);
}

#[test]
fn typing_then_backspace_restores_the_pane() {
    let mut p = pane_with(&["héllo", "x"], 0, 3);
    let before = p.lines.clone();
    p.insert_char('é');
    assert_eq!(p.lines[0], "hééllo");
    assert_eq!(p.cursor_col, 4);
    p.delete_char_before();
    assert_eq!(p.lines, before);
    assert_eq!((p.cursor_row, p.cursor_col), (0, 3));
    assert!(p.modified);
}

#[test]
fn cutting_either_way_gives_the_same_result() {
    let mut p1 = pane_with(&["abcdef", "ghij", "klm"], 0, 0);
    let mut p2 = pane_with(&["abcdef", "ghij", "klm"], 0, 0);
    assert!(p1.can_cut((0, 2), (2, 1)) && p2.can_cut((2, 1), (0, 2)));
    let r1 = p1.delete_char_selection((0, 2), (2, 1));
    let r2 = p2.delete_char_selection((2, 1), (0, 2));
    assert_eq!(r1, r2);
    assert_eq!(r1, vec!["cdef", "ghij", "kl"]);
    assert_eq!(p1.lines, p2.lines);
    assert_eq!(p1.lines, vec!["abm"]);
    assert_eq!((p1.cursor_row, p1.cursor_col), (p2.cursor_row, p2.cursor_col));
}

#[test]
fn can_cut_refuses_cuts_inside_characters() {
    let p = pane_with(&["héllo", ""], 0, 0);
    assert!(!p.can_cut((0, 2), (0, 3)));
    assert!(p.can_cut((0, 1), (0, 3)));
    assert!(!p.can_cut((1, 0), (1, 0)));
    assert!(!p.can_cut((0, 0), (5, 0)));
}

#[test]
fn delete_char_at_cursor_cuts_one_character() {
    let mut p = pane_with(&["hallo"], 0, 1);
    assert_eq!(p.delete_char_at_cursor(), vec!["a"]);
    assert_eq!(p.lines, vec!["hllo"]);
    assert_eq!((p.cursor_row, p.cursor_col), (0, 1));
    let mut q = pane_with(&["héllo"], 0, 1);
    assert!(q.delete_char_at_cursor().is_empty());
    assert_eq!(q.lines, vec!["héllo"]);
    let mut e = pane_with(&[""], 0, 0);
    assert!(e.delete_char_at_cursor().is_empty());
}
