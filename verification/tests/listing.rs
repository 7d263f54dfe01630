use clignote::editor::BrowseEntry;
use clignote::listing::{browse_listing, completion_candidates};

fn entry(name: &str, is_dir: bool) -> BrowseEntry {
    BrowseEntry { name: name.to_string(), is_dir }
}

fn names(v: &[BrowseEntry]) -> Vec<String> {
    v.iter().map(|e| e.name.clone()).collect()
}

fn sample() -> Vec<BrowseEntry> {
    vec![
        entry("b.org", false),
        entry("notes.txt", false),
        entry(".hidden", true),
        entry("zdir", true),
        entry("a.org", false),
        entry(".secret.org", false),
        entry("adir", true),
    ]
}

#[test]
fn browse_listing_puts_directories_first_then_names() {
    let r = browse_listing(sample(), false);
    assert_eq!(names(&r), vec!["adir", "zdir", "a.org", "b.org"]);
    assert!(r[0].is_dir && r[1].is_dir && !r[2].is_dir);
}

#[test]
fn browse_listing_starts_with_parent_entry() {
    let r = browse_listing(sample(), true);
    assert_eq!(names(&r), vec!["..", "adir", "zdir", "a.org", "b.org"]);
    assert!(r[0].is_dir);
}

#[test]
fn browse_listing_of_empty_directory() {
    assert!(browse_listing(Vec::new(), false).is_empty());
    assert_eq!(names(&browse_listing(Vec::new(), true)), vec![".."]);
}

#[test]
fn browse_listing_orders_names_by_code_point() {
    let raw = vec![entry("b", true), entry("B", true), entry("ab", true), entry("a", true)];
    assert_eq!(names(&browse_listing(raw, false)), vec!["B", "a", "ab", "b"]);
}

#[test]
fn completion_offers_matching_names_directories_first() {
    let raw = vec![
        entry("foo.org", false),
        entry("fob", true),
        entry(".foo", false),
        entry("bar", false),
        entry("fa", false),
    ];
    assert_eq!(completion_candidates(raw, "fo", None), vec!["fob/", "foo.org"]);
}

#[test]
fn completion_writes_the_directory_before_names() {
    let raw = vec![entry("foo.org", false), entry("fob", true)];
    assert_eq!(
        completion_candidates(raw, "f", Some("notes")),
        vec!["notes/fob/", "notes/foo.org"]
    );
}

#[test]
fn completion_offers_hidden_names_after_a_dot() {
    let raw = vec![entry(".foo", false), entry("foo", false), entry(".git", true)];
    assert_eq!(completion_candidates(raw, ".", None), vec![".git/", ".foo"]);
    let raw = vec![entry(".foo", false), entry("foo", false)];
    assert_eq!(completion_candidates(raw, "", None), vec!["foo"]);
}
