use rhabits::history::{parse_history, unique_preserve_order};
use rhabits::lexical::sort_history;

fn history(entries: &[&str]) -> Vec<String> {
    entries.iter().map(|entry| entry.to_string()).collect()
}

#[test]
fn repeated_entries_are_dropped_in_place() {
    let mut entries = history(&["2024-01-02", "2024-01-01", "2024-01-02", "2024-01-03", "2024-01-01"]);
    unique_preserve_order(&mut entries);
    assert_eq!(entries, history(&["2024-01-01", "2024-01-02", "2024-01-03"]));
}

#[test]
fn distinct_entries_are_left_alone() {
    let mut entries = history(&["2024-01-03", "2024-01-01"]);
    unique_preserve_order(&mut entries);
    assert_eq!(entries, history(&["2024-01-01", "2024-01-03"]));
    let mut none: Vec<String> = Vec::new();
    unique_preserve_order(&mut none);
    assert!(none.is_empty());
}

#[test]
fn entries_differ_by_spelling_not_by_day() {
    let mut entries = history(&["2024-01-03", "2024-1-3", "2024-01-03"]);
    unique_preserve_order(&mut entries);
    assert_eq!(entries, history(&["2024-01-03", "2024-1-3"]));
}

#[test]
fn a_history_comes_out_each_date_once_and_ascending() {
    let mut entries = history(&["2024-01-03", "2024-01-01", "2024-01-03"]);
    unique_preserve_order(&mut entries);
    assert_eq!(entries, history(&["2024-01-01", "2024-01-03"]));
}

#[test]
fn sorting_orders_the_texts() {
    let mut entries = history(&["2024-01-03", "2023-12-31", "2024-01-01", "2024-01-01"]);
    sort_history(&mut entries);
    assert_eq!(entries, history(&["2023-12-31", "2024-01-01", "2024-01-01", "2024-01-03"]));
}

#[test]
fn sorting_goes_by_code_points() {
    let mut entries = history(&["b", "", "a\u{e9}", "B", "ab", "a", "\u{10000}", "\u{ffff}"]);
    sort_history(&mut entries);
    assert_eq!(entries, history(&["", "B", "a", "ab", "a\u{e9}", "b", "\u{ffff}", "\u{10000}"]));
}

#[test]
fn normal_form_is_sorted_and_distinct() {
    let mut entries = history(&["2024-01-03", "2024-01-01", "2024-01-03", "2024-01-02"]);
    unique_preserve_order(&mut entries);
    assert_eq!(entries, history(&["2024-01-01", "2024-01-02", "2024-01-03"]));
}

#[test]
fn normalizing_twice_changes_nothing() {
    let mut entries = history(&["2024-01-03", "2024-01-01", "2024-01-02"]);
    unique_preserve_order(&mut entries);
    let once = entries.clone();
    unique_preserve_order(&mut entries);
    assert_eq!(entries, once);
    assert_eq!(entries, history(&["2024-01-01", "2024-01-02", "2024-01-03"]));
}

#[test]
fn days_are_read_entry_by_entry() {
    let days = parse_history(&history(&["2024-01-03", "1970-01-01", "2024-01-03"]));
    assert_eq!(days, Some(vec![738_888, 719_163, 738_888]));
    assert_eq!(parse_history(&Vec::new()), Some(Vec::new()));
}

#[test]
fn one_malformed_entry_spoils_the_history() {
    assert_eq!(parse_history(&history(&["2024-01-03", "soon", "2024-01-04"])), None);
    assert_eq!(parse_history(&history(&["2024-02-30"])), None);
}
