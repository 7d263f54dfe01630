use clignote::editor::{Mode, SplitDir};
use clignote::keymap::{Key, KeyCode, PaneDir};
use clignote::session::{
    first_match_from, focus_target, next_pane, normal_command, pane_at, parse_command,
    search_matches, visual_command, visual_selection, Command, Motion, NormalCommand, Rect,
    VisualCommand,
};
use clignote::session::{
    mode_step, click_position, move_selection, next_match, prev_match, refreshed_match, scroll_to_show,
};

fn key(c: char) -> Key {
    Key { code: KeyCode::Char(c), ctrl: false }
}

fn ctrl(c: char) -> Key {
    Key { code: KeyCode::Char(c), ctrl: true }
}

#[test]
fn visual_selection_orders_ends() {
    assert_eq!(
        visual_selection(Mode::Visual { line_wise: false }, Some((3, 4)), (1, 2)),
        Some((1, 2, 3, 4, false))
    );
    assert_eq!(
        visual_selection(Mode::Visual { line_wise: true }, Some((1, 0)), (1, 5)),
        Some((1, 0, 1, 5, true))
    );
    assert_eq!(visual_selection(Mode::Normal, Some((0, 0)), (1, 1)), None);
    assert_eq!(visual_selection(Mode::Visual { line_wise: false }, None, (1, 1)), None);
}

#[test]
fn next_pane_wraps_in_tree_order() {
    let leaves = vec![0, 2, 1];
    assert_eq!(next_pane(&leaves, 2), 1);
    assert_eq!(next_pane(&leaves, 1), 0);
    assert_eq!(next_pane(&vec![0], 0), 0);
    assert_eq!(next_pane(&leaves, 9), 9);
}

#[test]
fn focus_moves_to_neighbour() {
    let rects = vec![
        Rect { x: 0, y: 0, width: 40, height: 20 },
        Rect { x: 40, y: 0, width: 40, height: 10 },
        Rect { x: 40, y: 10, width: 40, height: 10 },
    ];
    assert_eq!(focus_target(&rects, 0, PaneDir::Right, 3), Some(1));
    assert_eq!(focus_target(&rects, 0, PaneDir::Left, 3), None);
    assert_eq!(focus_target(&rects, 1, PaneDir::Down, 3), Some(2));
    assert_eq!(focus_target(&rects, 2, PaneDir::Left, 3), Some(0));
    assert_eq!(focus_target(&rects, 0, PaneDir::Right, 2), None);
}

#[test]
fn click_finds_pane() {
    let rects = vec![
        Rect { x: 0, y: 0, width: 40, height: 20 },
        Rect { x: 40, y: 0, width: 40, height: 20 },
    ];
    assert_eq!(pane_at(&rects, 45, 5), Some(1));
    assert_eq!(pane_at(&rects, 0, 0), Some(0));
    assert_eq!(pane_at(&rects, 100, 5), None);
}

#[test]
fn commands_parse() {
    assert_eq!(
        parse_command("  e notes.org "),
        Command::Edit { path: Some("notes.org".into()), force: false }
    );
    assert_eq!(parse_command("e"), Command::Edit { path: None, force: false });
    assert_eq!(
        parse_command("edit! x"),
        Command::Edit { path: Some("x".into()), force: true }
    );
    assert_eq!(parse_command("wq"), Command::WriteQuit);
    assert_eq!(parse_command("x"), Command::WriteQuit);
    assert_eq!(parse_command("q!"), Command::ForceQuit);
    assert_eq!(parse_command("vs"), Command::Split(SplitDir::Vertical));
    assert_eq!(parse_command("Ex"), Command::Explore(None));
    assert_eq!(parse_command("Explore docs"), Command::Explore(Some("docs".into())));
    assert_eq!(parse_command("frob 1"), Command::Unknown("frob".into()));
}

#[test]
fn search_finds_matches_row_by_row() {
    let lines: Vec<String> = vec!["abcabc".into(), "xx".into(), "abc".into()];
    assert_eq!(search_matches(&lines, "bc"), vec![(0, 1), (0, 4), (2, 1)]);
    assert_eq!(search_matches(&lines, ""), vec![]);
    let aaaa: Vec<String> = vec!["aaaa".into()];
    assert_eq!(search_matches(&aaaa, "aa"), vec![(0, 0), (0, 2)]);
    let wide: Vec<String> = vec!["héllo hé".into()];
    assert_eq!(search_matches(&wide, "hé"), vec![(0, 0), (0, 7)]);
}

#[test]
fn first_match_after_origin() {
    let ms = vec![(0, 1), (0, 4), (2, 1)];
    assert_eq!(first_match_from(&ms, (0, 2)), 1);
    assert_eq!(first_match_from(&ms, (1, 0)), 2);
    assert_eq!(first_match_from(&ms, (3, 0)), 0);
}

#[test]
fn normal_keys() {
    assert_eq!(normal_command(&key('j')), Some(NormalCommand::Move(Motion::Down(1))));
    assert_eq!(normal_command(&ctrl('d')), Some(NormalCommand::Move(Motion::Down(20))));
    assert_eq!(normal_command(&ctrl('b')), Some(NormalCommand::Move(Motion::Up(40))));
    assert_eq!(normal_command(&key('b')), Some(NormalCommand::Move(Motion::WordBackward)));
    assert_eq!(normal_command(&key('d')), None);
    assert_eq!(
        normal_command(&Key { code: KeyCode::Enter, ctrl: false }),
        Some(NormalCommand::Follow)
    );
}

#[test]
fn visual_keys() {
    assert_eq!(
        visual_command(&key('v'), true),
        Some(VisualCommand::SwitchTo { line_wise: false })
    );
    assert_eq!(visual_command(&key('v'), false), None);
    assert_eq!(visual_command(&key('x'), false), Some(VisualCommand::Delete));
    assert_eq!(visual_command(&key('g'), false), Some(VisualCommand::Move(Motion::FileStart)));
}

#[test]
fn click_position_skips_the_gutter_and_clamps() {
    let lines = vec!["hello".to_string(), "ab".to_string(), "xyz".to_string()];
    let rect = Rect { x: 0, y: 0, width: 10, height: 5 };
    assert_eq!(click_position(rect, 3, 0, 0, 0, &lines), (0, 2));
    assert_eq!(click_position(rect, 9, 1, 0, 0, &lines), (1, 1));
    assert_eq!(click_position(rect, 0, 4, 0, 0, &lines), (2, 0));
    assert_eq!(click_position(rect, 2, 0, 1, 0, &lines), (1, 1));
    let narrow = Rect { x: 4, y: 2, width: 1, height: 5 };
    assert_eq!(click_position(narrow, 4, 2, 0, 0, &lines), (0, 0));
}

#[test]
fn scroll_to_show_moves_as_little_as_possible() {
    assert_eq!(scroll_to_show(5, 0, 3), 3);
    assert_eq!(scroll_to_show(1, 2, 3), 1);
    assert_eq!(scroll_to_show(2, 1, 3), 1);
    assert_eq!(scroll_to_show(9, 4, 0), 4);
}

#[test]
fn matches_wrap_both_ways() {
    assert_eq!(next_match(2, 3), 0);
    assert_eq!(next_match(0, 3), 1);
    assert_eq!(prev_match(0, 3), 2);
    assert_eq!(prev_match(2, 3), 1);
}

#[test]
fn refreshed_match_restarts_from_the_origin() {
    let ms = vec![(0, 0), (2, 3), (4, 1)];
    assert_eq!(refreshed_match(false, 1, &ms, (3, 0)), 1);
    assert_eq!(refreshed_match(true, 1, &ms, (3, 0)), 2);
    assert_eq!(refreshed_match(false, 7, &ms, (1, 0)), 1);
    assert_eq!(refreshed_match(true, 1, &ms, (9, 0)), 0);
}

#[test]
fn move_selection_stops_at_both_ends() {
    assert_eq!(move_selection(3, 5, true, 1), 4);
    assert_eq!(move_selection(4, 5, true, 1), 4);
    assert_eq!(move_selection(1, 5, true, 20), 4);
    assert_eq!(move_selection(0, 0, true, 1), 0);
    assert_eq!(move_selection(3, 5, false, 1), 2);
    assert_eq!(move_selection(3, 5, false, 20), 0);
}

#[test]
fn mode_step_enters_insert_and_visual_modes() {
    let s = mode_step(NormalCommand::Append, Mode::Normal, None, (2, 3), 5);
    assert_eq!((s.mode, s.anchor, s.cursor_col), (Mode::Insert, None, 4));
    let s = mode_step(NormalCommand::Append, Mode::Normal, None, (2, 5), 5);
    assert_eq!(s.cursor_col, 5);
    let s = mode_step(NormalCommand::AppendAtEnd, Mode::Normal, None, (2, 0), 5);
    assert_eq!((s.mode, s.cursor_col), (Mode::Insert, 5));
    let s = mode_step(NormalCommand::VisualChar, Mode::Normal, None, (2, 3), 5);
    assert_eq!((s.mode, s.anchor, s.cursor_col), (Mode::Visual { line_wise: false }, Some((2, 3)), 3));
    let s = mode_step(NormalCommand::VisualLine, Mode::Normal, None, (2, 3), 5);
    assert_eq!((s.mode, s.anchor), (Mode::Visual { line_wise: true }, Some((2, 0))));
    let s = mode_step(NormalCommand::CommandLine, Mode::Normal, Some((1, 1)), (2, 3), 5);
    assert_eq!((s.mode, s.anchor, s.cursor_col), (Mode::Command, Some((1, 1)), 3));
    let s = mode_step(NormalCommand::NextMatch, Mode::Normal, None, (2, 3), 5);
    assert_eq!((s.mode, s.anchor, s.cursor_col), (Mode::Normal, None, 3));
}
