use clignote::display::{conceal_links, find_tags_char_col, in_selection};
use clignote::display::{cell_overlay, folds_links, Overlay};

#[test]
fn conceal_links_shows_description_only() {
    let (chars, _) = conceal_links("see [[https://example.com][the docs]] here");
    let s: String = chars.into_iter().collect();
    assert_eq!(s, "see the docs here");
}

#[test]
fn conceal_links_shows_bare_url_when_no_description() {
    let (chars, _) = conceal_links("see [[https://example.com]] here");
    let s: String = chars.into_iter().collect();
    assert_eq!(s, "see https://example.com here");
}

#[test]
fn conceal_links_leaves_plain_text_untouched() {
    let (chars, _) = conceal_links("no links here");
    let s: String = chars.into_iter().collect();
    assert_eq!(s, "no links here");
}

#[test]
fn conceal_links_reports_source_indices() {
    let (chars, idx) = conceal_links("a[[u]]b");
    let s: String = chars.into_iter().collect();
    assert_eq!(s, "aub");
    assert_eq!(idx, vec![0, 3, 6]);
}

#[test]
fn conceal_links_keeps_unclosed_link() {
    let (chars, _) = conceal_links("x [[half");
    let s: String = chars.into_iter().collect();
    assert_eq!(s, "x [[half");
}

#[test]
fn selection_char_wise_spans_rows() {
    assert!(in_selection(1, 5, 1, 3, 2, 1, false));
    assert!(!in_selection(1, 2, 1, 3, 2, 1, false));
    assert!(in_selection(2, 1, 1, 3, 2, 1, false));
    assert!(!in_selection(2, 2, 1, 3, 2, 1, false));
    assert!(!in_selection(3, 0, 1, 3, 2, 1, false));
}

#[test]
fn selection_line_wise_covers_rows() {
    assert!(in_selection(2, 99, 1, 3, 2, 1, true));
    assert!(!in_selection(0, 0, 1, 3, 2, 1, true));
}

#[test]
fn selection_on_one_row() {
    assert!(in_selection(4, 2, 4, 2, 4, 6, false));
    assert!(in_selection(4, 6, 4, 2, 4, 6, false));
    assert!(!in_selection(4, 7, 4, 2, 4, 6, false));
}

#[test]
fn tags_column_found() {
    let chars: Vec<char> = "* Title :a:b:".chars().collect();
    assert_eq!(find_tags_char_col(&chars, 2), 8);
}

#[test]
fn tags_column_absent_without_space() {
    let chars: Vec<char> = "* Title:a:".chars().collect();
    assert_eq!(find_tags_char_col(&chars, 2), chars.len());
}

#[test]
fn tags_column_absent_without_trailing_colon() {
    let chars: Vec<char> = "* Title :a".chars().collect();
    assert_eq!(find_tags_char_col(&chars, 2), chars.len());
}

#[test]
fn cell_overlay_stacks_cursor_match_selection() {
    let ms = vec![(0, 2), (0, 6)];
    let sel = Some((0, 0, 0, 9, false));
    assert_eq!(cell_overlay(0, 4, true, sel, &ms, 3, Some(0), (0, 4), false), Overlay::Cursor);
    assert_eq!(
        cell_overlay(0, 4, true, sel, &ms, 3, Some(0), (0, 4), true),
        Overlay::Match { current: true }
    );
    assert_eq!(
        cell_overlay(0, 7, true, sel, &ms, 3, Some(0), (1, 0), false),
        Overlay::Match { current: false }
    );
    assert_eq!(cell_overlay(0, 9, true, sel, &ms, 3, Some(0), (1, 0), false), Overlay::Selected);
    assert_eq!(cell_overlay(0, 9, false, sel, &ms, 3, Some(0), (1, 0), false), Overlay::Plain);
    assert_eq!(cell_overlay(0, 3, true, None, &ms, 0, None, (1, 0), false), Overlay::Plain);
}

#[test]
fn links_unfold_on_the_edited_row_only() {
    assert!(folds_links(true, true, 3, 4, true));
    assert!(!folds_links(true, true, 4, 4, true));
    assert!(folds_links(true, true, 4, 4, false));
    assert!(!folds_links(false, false, 0, 4, false));
}
