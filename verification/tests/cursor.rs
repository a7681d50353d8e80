use dirinfo::collation::compare_names;
use dirinfo::DirInfo;
use dirinfo::FileBasicInfo;

fn fill_files(c: &mut DirInfo, names: &[&str]) {
    for n in names {
        c.fill_item_entry((*n).to_string(), 1, false);
    }
}

fn drain_names(c: &mut DirInfo) -> Vec<String> {
    let mut out = Vec::new();
    while c.current_is_valid() {
        out.push(c.current_file_name().clone());
        c.move_next();
    }
    out
}

#[test]
fn fresh_cursor_is_empty_and_unfilled() {
    let c = DirInfo::new("some/dir".to_string());
    assert!(!c.filled());
    assert!(!c.current_is_valid());
}

#[test]
fn fill_then_sort_orders_case_insensitively() {
    let mut c = DirInfo::new("d".to_string());
    fill_files(&mut c, &["b", "A", "c"]);
    c.sort_entries_and_mark_filled();
    assert!(c.filled());
    assert_eq!(drain_names(&mut c), vec!["A", "b", "c"]);
}

#[test]
fn tie_between_cases_orders_by_folded_code_point() {
    let mut c = DirInfo::new("d".to_string());
    fill_files(&mut c, &["B", "a"]);
    c.sort_entries_and_mark_filled();
    assert_eq!(drain_names(&mut c), vec!["a", "B"]);
}

#[test]
fn names_differing_only_in_case_keep_their_arrival_order() {
    let mut c = DirInfo::new("d".to_string());
    fill_files(&mut c, &["foo", "FOO", "Foo"]);
    c.sort_entries_and_mark_filled();
    assert_eq!(drain_names(&mut c), vec!["foo", "FOO", "Foo"]);
}

#[test]
fn sorted_iteration_is_nondecreasing_at_adjacent_pairs() {
    let mut c = DirInfo::new("d".to_string());
    fill_files(&mut c, &["Readme", "apple", "Banana", "zebra", "APPLE", "cherry"]);
    c.sort_entries_and_mark_filled();
    let names = drain_names(&mut c);
    assert_eq!(names.len(), 6);
    for w in names.windows(2) {
        assert!(compare_names(&w[0], &w[1]) <= 0);
    }
}

#[test]
fn resumed_cursor_serves_the_nth_sorted_entry() {
    let mut c = DirInfo::new("d".to_string());
    fill_files(&mut c, &["delta", "alpha", "Charlie", "bravo"]);
    c.sort_entries_and_mark_filled();
    let sorted = ["alpha", "bravo", "Charlie", "delta"];
    for (n, expected) in sorted.iter().enumerate() {
        assert!(c.current_is_valid());
        assert_eq!(c.current_file_name(), expected);
        let still_valid = c.move_next();
        assert_eq!(still_valid, n + 1 < sorted.len());
    }
    assert!(!c.current_is_valid());
}

#[test]
fn reset_is_idempotent_and_harmless_on_a_fresh_cursor() {
    let mut fresh = DirInfo::new("d".to_string());
    fresh.reset();
    assert!(!fresh.filled());
    assert!(!fresh.current_is_valid());

    let mut c = DirInfo::new("d".to_string());
    fill_files(&mut c, &["x", "y"]);
    c.sort_entries_and_mark_filled();
    c.move_next();
    c.reset();
    c.reset();
    assert!(!c.filled());
    assert!(!c.current_is_valid());
    assert_eq!(drain_names(&mut c), Vec::<String>::new());
}

#[test]
fn empty_directory_is_exhausted_immediately() {
    let mut c = DirInfo::new("d".to_string());
    c.sort_entries_and_mark_filled();
    assert!(c.filled());
    assert!(!c.current_is_valid());
    // An exhausted cursor stays exhausted: the position is clamped.
    assert!(!c.move_next());
    assert!(!c.move_next());
    assert!(!c.current_is_valid());
}

#[test]
fn basic_info_reports_directory_flag_and_supplied_size() {
    let mut c = DirInfo::new("d".to_string());
    // The supplied size is kept even for directories (the host ignores it).
    c.fill_item_entry("sub".to_string(), 4096, true);
    c.fill_item_entry("file.txt".to_string(), 7, false);
    c.sort_entries_and_mark_filled();
    assert_eq!(c.current_file_name(), "file.txt");
    let info = c.current_basic_info();
    assert_eq!(info, FileBasicInfo { is_directory: false, size: 7 });
    assert!(c.move_next());
    assert_eq!(c.current_file_name(), "sub");
    let info = c.current_basic_info();
    assert!(info.is_directory);
    assert_eq!(info.size, 4096);
}

#[test]
fn entries_of_an_earlier_epoch_are_never_served() {
    let mut c = DirInfo::new("d".to_string());
    fill_files(&mut c, &["zzz", "yyy"]);
    c.sort_entries_and_mark_filled();
    c.reset();
    fill_files(&mut c, &["b", "a"]);
    c.sort_entries_and_mark_filled();
    let names = drain_names(&mut c);
    assert_eq!(names, vec!["a", "b"]);
    assert!(!names.iter().any(|n| n == "zzz" || n == "yyy"));
}

#[test]
fn filling_after_a_sort_marks_the_cursor_unfilled_again() {
    let mut c = DirInfo::new("d".to_string());
    fill_files(&mut c, &["b"]);
    c.sort_entries_and_mark_filled();
    assert!(c.filled());
    c.fill_item_entry("a".to_string(), 1, false);
    assert!(!c.filled());
    c.sort_entries_and_mark_filled();
    assert!(c.filled());
    assert_eq!(drain_names(&mut c), vec!["a", "b"]);
}

#[test]
fn sorting_twice_in_one_epoch_is_harmless() {
    let mut c = DirInfo::new("d".to_string());
    fill_files(&mut c, &["c", "a", "B"]);
    c.sort_entries_and_mark_filled();
    c.sort_entries_and_mark_filled();
    assert!(c.filled());
    assert_eq!(drain_names(&mut c), vec!["a", "B", "c"]);
}

#[test]
fn duplicate_names_are_preserved_as_distinct_entries() {
    let mut c = DirInfo::new("d".to_string());
    c.fill_item_entry("same".to_string(), 1, false);
    c.fill_item_entry("same".to_string(), 2, false);
    c.sort_entries_and_mark_filled();
    assert!(c.current_is_valid());
    assert_eq!(c.current_file_name(), "same");
    // The tie keeps the arrival order: the first-filled entry comes first.
    assert_eq!(c.current_basic_info().size, 1);
    assert!(c.move_next());
    assert_eq!(c.current_file_name(), "same");
    assert_eq!(c.current_basic_info().size, 2);
    assert!(!c.move_next());
}

#[test]
fn compare_names_matches_the_documented_collation() {
    assert_eq!(compare_names("a", "B"), -1);
    assert_eq!(compare_names("B", "a"), 1);
    assert_eq!(compare_names("foo", "FOO"), 0);
    assert_eq!(compare_names("ab", "abc"), -1);
    assert_eq!(compare_names("abc", "ab"), 1);
    assert_eq!(compare_names("", ""), 0);
    assert_eq!(compare_names("", "a"), -1);
    // Only ASCII letters fold: an underscore (95) sorts after uppercase
    // letters, as it lies above the folded range.
    assert_eq!(compare_names("_x", "ax"), 1);
    // Characters outside ASCII compare by code point.
    assert_eq!(compare_names("\u{e9}", "z"), 1);
}
