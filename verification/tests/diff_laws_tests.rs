use crow_text::{compute_diff, compute_line_diff, merge_adjacent_changes, DiffChange, LineDiff};

/// Rebuilds the modified text from the original and the changes.
fn apply(original: &str, modified: &str, changes: &[DiffChange]) -> String {
    let old: Vec<char> = original.chars().collect();
    let new: Vec<char> = modified.chars().collect();
    let mut out = String::new();
    let mut pos = 0;
    for c in changes {
        assert!(c.original_start >= pos);
        out.extend(&old[pos..c.original_start]);
        out.extend(&new[c.modified_start..c.modified_start + c.modified_length]);
        pos = c.original_start + c.original_length;
    }
    out.extend(&old[pos..]);
    out
}

#[test]
fn diff_rebuilds_modified_text() {
    let pairs = [
        ("abcdef", "abXdeYf"),
        ("kitten", "sitting"),
        ("", "abc"),
        ("abc", ""),
        ("same", "same"),
        ("a😀b", "ab😀"),
        ("the quick brown fox", "the slow brown dog"),
    ];
    for (a, b) in pairs {
        let changes = compute_diff(a, b);
        assert_eq!(apply(a, b, &changes), b, "{} -> {}", a, b);
        for w in changes.windows(2) {
            assert!(w[0].original_start + w[0].original_length < w[1].original_start);
            assert!(w[0].modified_start + w[0].modified_length < w[1].modified_start);
        }
        for c in &changes {
            assert!(c.original_length + c.modified_length > 0);
        }
    }
}

#[test]
fn diff_complex_exact_blocks() {
    let changes = compute_diff("abcdef", "abXdeYf");
    assert_eq!(
        changes,
        vec![
            DiffChange { original_start: 2, original_length: 1, modified_start: 2, modified_length: 1 },
            DiffChange { original_start: 5, original_length: 0, modified_start: 5, modified_length: 1 },
        ]
    );
}

#[test]
fn line_diff_lists_both_sides() {
    let orig = vec!["a", "b", "c", "d"];
    let modi = vec!["a", "x", "c", "e", "f"];
    let diff = compute_line_diff(&orig, &modi);
    let mut old_side = Vec::new();
    let mut new_side = Vec::new();
    for d in &diff {
        match d {
            LineDiff::Equal(s) => {
                old_side.push(s.clone());
                new_side.push(s.clone());
            }
            LineDiff::Removed(s) => old_side.push(s.clone()),
            LineDiff::Added(s) => new_side.push(s.clone()),
            LineDiff::Modified(a, b) => {
                old_side.push(a.clone());
                new_side.push(b.clone());
            }
        }
    }
    assert_eq!(old_side, orig);
    assert_eq!(new_side, modi);
    assert_eq!(diff[0], LineDiff::Equal("a".into()));
    assert_eq!(diff[1], LineDiff::Modified("b".into(), "x".into()));
}

/// Number of characters the changes delete and insert.
fn cost(changes: &[DiffChange]) -> usize {
    changes.iter().map(|c| c.original_length + c.modified_length).sum()
}

#[test]
fn diff_is_shortest() {
    // The longest common subsequence of these pairs has the given length, so a
    // shortest script costs len(a) + len(b) - 2 * lcs.
    let cases = [
        ("abcdef", "abXdeYf", 5),
        ("kitten", "sitting", 4),
        ("abcabba", "cbabac", 4),
        ("", "abc", 0),
        ("same", "same", 4),
        ("xyz", "abc", 0),
    ];
    for (a, b, lcs) in cases {
        let changes = compute_diff(a, b);
        let n = a.chars().count();
        let m = b.chars().count();
        assert_eq!(cost(&changes), n + m - 2 * lcs, "{a} -> {b}");
        assert_eq!(apply(a, b, &changes), b);
    }
}

#[test]
fn merging_twice_changes_nothing() {
    let c = |os, ol, ms, ml| DiffChange { original_start: os, original_length: ol, modified_start: ms, modified_length: ml };
    let changes = vec![c(0, 2, 0, 1), c(2, 1, 1, 0), c(5, 0, 3, 2), c(6, 1, 6, 1), c(7, 0, 7, 3)];
    let once = merge_adjacent_changes(&changes);
    assert_eq!(once, vec![c(0, 3, 0, 1), c(5, 0, 3, 2), c(6, 1, 6, 4)]);
    assert_eq!(merge_adjacent_changes(&once), once);
}

#[test]
fn diff_ties_follow_the_myers_walk() {
    let c = |os, ol, ms, ml| DiffChange { original_start: os, original_length: ol, modified_start: ms, modified_length: ml };
    // Two shortest scripts exist; the walk takes the one that deletes first.
    assert_eq!(compute_diff("ab", "ba"), vec![c(0, 1, 0, 0), c(2, 0, 1, 1)]);
}
