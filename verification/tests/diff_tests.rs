use crow_text::diff::merge_adjacent_changes;
use crow_text::{compute_diff, compute_line_diff, DiffChange, LineDiff};

// ── compute_diff (character-level) ───────────────────────────────

#[test]
fn diff_identical() {
    let changes = compute_diff("hello", "hello");
    assert!(changes.is_empty());
}

#[test]
fn diff_empty_to_text() {
    let changes = compute_diff("", "hello");
    assert_eq!(changes.len(), 1);
    assert_eq!(changes[0].original_start, 0);
    assert_eq!(changes[0].original_length, 0);
    assert_eq!(changes[0].modified_start, 0);
    assert_eq!(changes[0].modified_length, 5);
}

#[test]
fn diff_text_to_empty() {
    let changes = compute_diff("hello", "");
    assert_eq!(changes.len(), 1);
    assert_eq!(changes[0].original_start, 0);
    assert_eq!(changes[0].original_length, 5);
    assert_eq!(changes[0].modified_length, 0);
}

#[test]
fn diff_insertion() {
    let changes = compute_diff("ac", "abc");
    assert_eq!(changes.len(), 1);
    assert_eq!(changes[0].original_start, 1);
    assert_eq!(changes[0].original_length, 0);
    assert_eq!(changes[0].modified_start, 1);
    assert_eq!(changes[0].modified_length, 1);
}

#[test]
fn diff_deletion() {
    let changes = compute_diff("abc", "ac");
    assert_eq!(changes.len(), 1);
    assert_eq!(changes[0].original_start, 1);
    assert_eq!(changes[0].original_length, 1);
    assert_eq!(changes[0].modified_start, 1);
    assert_eq!(changes[0].modified_length, 0);
}

#[test]
fn diff_replacement() {
    let changes = compute_diff("abc", "aXc");
    assert_eq!(changes.len(), 1);
    assert_eq!(changes[0].original_start, 1);
    assert_eq!(changes[0].original_length, 1);
    assert_eq!(changes[0].modified_start, 1);
    assert_eq!(changes[0].modified_length, 1);
}

#[test]
fn diff_both_empty() {
    let changes = compute_diff("", "");
    assert!(changes.is_empty());
}

#[test]
fn diff_complex() {
    let changes = compute_diff("abcdef", "abXdeYf");
    // c→X and insert Y after e
    assert!(!changes.is_empty());
    // Just verify the total edit distance is reasonable
    let total_orig: usize = changes.iter().map(|c| c.original_length).sum();
    let total_mod: usize = changes.iter().map(|c| c.modified_length).sum();
    assert!(total_orig <= 3);
    assert!(total_mod <= 3);
}

// ── compute_line_diff ────────────────────────────────────────────

#[test]
fn line_diff_identical() {
    let orig = vec!["a", "b", "c"];
    let modi = vec!["a", "b", "c"];
    let diff = compute_line_diff(&orig, &modi);
    assert_eq!(diff.len(), 3);
    assert!(diff.iter().all(|d| matches!(d, LineDiff::Equal(_))));
}

#[test]
fn line_diff_added() {
    let orig: Vec<&str> = vec!["a", "c"];
    let modi: Vec<&str> = vec!["a", "b", "c"];
    let diff = compute_line_diff(&orig, &modi);
    assert!(diff.contains(&LineDiff::Equal("a".into())));
    assert!(diff.contains(&LineDiff::Equal("c".into())));
    let has_added = diff
        .iter()
        .any(|d| matches!(d, LineDiff::Added(s) if s == "b"));
    assert!(has_added);
}

#[test]
fn line_diff_removed() {
    let orig: Vec<&str> = vec!["a", "b", "c"];
    let modi: Vec<&str> = vec!["a", "c"];
    let diff = compute_line_diff(&orig, &modi);
    let has_removed = diff
        .iter()
        .any(|d| matches!(d, LineDiff::Removed(s) if s == "b"));
    assert!(has_removed);
}

#[test]
fn line_diff_modified() {
    let orig: Vec<&str> = vec!["a", "b", "c"];
    let modi: Vec<&str> = vec!["a", "B", "c"];
    let diff = compute_line_diff(&orig, &modi);
    let has_modified = diff
        .iter()
        .any(|d| matches!(d, LineDiff::Modified(old, new) if old == "b" && new == "B"));
    assert!(has_modified);
}

#[test]
fn line_diff_empty_to_lines() {
    let orig: Vec<&str> = vec![];
    let modi: Vec<&str> = vec!["a", "b"];
    let diff = compute_line_diff(&orig, &modi);
    assert_eq!(diff.len(), 2);
    assert!(diff.iter().all(|d| matches!(d, LineDiff::Added(_))));
}

#[test]
fn line_diff_lines_to_empty() {
    let orig: Vec<&str> = vec!["a", "b"];
    let modi: Vec<&str> = vec![];
    let diff = compute_line_diff(&orig, &modi);
    assert_eq!(diff.len(), 2);
    assert!(diff.iter().all(|d| matches!(d, LineDiff::Removed(_))));
}

#[test]
fn line_diff_complete_replacement() {
    let orig: Vec<&str> = vec!["a", "b"];
    let modi: Vec<&str> = vec!["x", "y"];
    let diff = compute_line_diff(&orig, &modi);
    assert_eq!(diff.len(), 2);
    assert!(diff.iter().all(|d| matches!(d, LineDiff::Modified(_, _))));
}

// ── merge_adjacent_changes ───────────────────────────────────────

#[test]
fn merge_adjacent() {
    let changes = vec![
        DiffChange {
            original_start: 0,
            original_length: 1,
            modified_start: 0,
            modified_length: 0,
        },
        DiffChange {
            original_start: 1,
            original_length: 1,
            modified_start: 0,
            modified_length: 0,
        },
    ];
    let merged = merge_adjacent_changes(&changes);
    assert_eq!(merged.len(), 1);
    assert_eq!(merged[0].original_start, 0);
    assert_eq!(merged[0].original_length, 2);
}

#[test]
fn merge_non_adjacent() {
    let changes = vec![
        DiffChange {
            original_start: 0,
            original_length: 1,
            modified_start: 0,
            modified_length: 1,
        },
        DiffChange {
            original_start: 5,
            original_length: 1,
            modified_start: 5,
            modified_length: 1,
        },
    ];
    let merged = merge_adjacent_changes(&changes);
    assert_eq!(merged.len(), 2);
}
