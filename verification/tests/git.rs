use clignote::git::{diff_with_head, LineStatus};

fn lines(v: &[&str]) -> Vec<String> {
    v.iter().map(|s| s.to_string()).collect()
}

use LineStatus::{Added as A, Modified as M, Unchanged as U};

#[test]
fn new_file_is_all_added() {
    assert_eq!(diff_with_head(None, &lines(&["a", "b"])), vec![A, A]);
}

#[test]
fn identical_file_is_unchanged() {
    let h = lines(&["a", "b", "c"]);
    assert_eq!(diff_with_head(Some(&h), &h), vec![U, U, U]);
}

#[test]
fn inserted_line_is_added() {
    let h = lines(&["a", "b"]);
    assert_eq!(diff_with_head(Some(&h), &lines(&["a", "x", "b"])), vec![U, A, U]);
}

#[test]
fn replaced_line_is_modified() {
    let h = lines(&["a", "b", "c"]);
    assert_eq!(diff_with_head(Some(&h), &lines(&["a", "X", "c"])), vec![U, M, U]);
}

#[test]
fn deleted_line_marks_nothing() {
    let h = lines(&["a", "b"]);
    assert_eq!(diff_with_head(Some(&h), &lines(&["a"])), vec![U]);
    assert_eq!(diff_with_head(Some(&h), &[]), Vec::<LineStatus>::new());
}

#[test]
fn empty_head_marks_everything_added() {
    let h: Vec<String> = Vec::new();
    assert_eq!(diff_with_head(Some(&h), &lines(&["x", "y"])), vec![A, A]);
}

#[test]
fn moved_line_hunks() {
    let h = lines(&["a", "b", "c", "d"]);
    assert_eq!(diff_with_head(Some(&h), &lines(&["a", "c", "e", "d"])), vec![U, U, A, U]);
}

#[test]
fn default_status_is_unchanged() {
    assert_eq!(LineStatus::default(), U);
}

#[test]
fn very_large_change_is_all_modified() {
    let h: Vec<String> = (0..600).map(|i| format!("old {}", i)).collect();
    let c: Vec<String> = (0..600).map(|i| format!("new {}", i)).collect();
    let r = diff_with_head(Some(&h), &c);
    assert_eq!(r.len(), 600);
    assert!(r.iter().all(|s| *s == M));
}
