use clignote::keymap::{exact_match, hint_for_prefix, match_seq, Action, MatchResult, PaneDir};

#[test]
fn complete_sequences_give_actions() {
    assert_eq!(match_seq("g g"), MatchResult::Action(Action::GoToFileStart));
    assert_eq!(match_seq("d w"), MatchResult::Action(Action::DeleteWord));
    assert_eq!(match_seq("C-w C-v"), MatchResult::Action(Action::SplitVertical));
    assert_eq!(match_seq("SPC w j"), MatchResult::Action(Action::FocusPane(PaneDir::Down)));
    assert_eq!(match_seq("SPC q q"), MatchResult::Action(Action::QuitAll));
}

#[test]
fn prefixes_wait_for_more_keys() {
    assert_eq!(match_seq("g"), MatchResult::Prefix);
    assert_eq!(match_seq("C-w"), MatchResult::Prefix);
    assert_eq!(match_seq("SPC b"), MatchResult::Prefix);
}

#[test]
fn unknown_sequences_do_not_match() {
    assert_eq!(match_seq("x"), MatchResult::NoMatch);
    assert_eq!(match_seq("SPC b b"), MatchResult::NoMatch);
    assert_eq!(match_seq(""), MatchResult::NoMatch);
    assert_eq!(exact_match("g"), None);
}

#[test]
fn hints_for_prefixes() {
    assert_eq!(hint_for_prefix("SPC f"), "s: save");
    assert_eq!(hint_for_prefix("d"), "d: delete line  w: delete word");
    assert_eq!(hint_for_prefix("zz"), "");
}

use clignote::keymap::{key_to_str, seq_to_str, Key, KeyCode};

#[test]
fn keys_to_strings() {
    assert_eq!(key_to_str(&Key { code: KeyCode::Char(' '), ctrl: false }), "SPC");
    assert_eq!(key_to_str(&Key { code: KeyCode::Char('w'), ctrl: true }), "C-w");
    assert_eq!(key_to_str(&Key { code: KeyCode::Enter, ctrl: false }), "RET");
    assert_eq!(key_to_str(&Key { code: KeyCode::Other("F(1)".into()), ctrl: false }), "F(1)");
    let seq = vec![
        Key { code: KeyCode::Char('w'), ctrl: true },
        Key { code: KeyCode::Char('s'), ctrl: false },
    ];
    assert_eq!(seq_to_str(&seq), "C-w s");
    assert_eq!(match_seq(&seq_to_str(&seq)), MatchResult::Action(Action::SplitHorizontal));
    assert_eq!(seq_to_str(&[]), "");
}
