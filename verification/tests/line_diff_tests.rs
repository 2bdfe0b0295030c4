use git_ai::attribution::DiffOp;
use git_ai::line_diff::{
    all_line_ranges, checkpoint_entries, checkpoint_line_changes, checkpoint_line_numbers,
    committed_line_ranges, hanging_line_matches, inserted_line_numbers, inserted_line_texts,
    unstaged_line_ranges,
};
use git_ai::line_range::LineRange;
use git_ai::working_log::Line;

fn ch(op: DiffOp, s: &str) -> (DiffOp, String) {
    (op, s.to_string())
}

#[test]
fn inserted_line_numbers_count_new_side() {
    let changes = vec![
        ch(DiffOp::Equal, "a\n"),
        ch(DiffOp::Insert, "b\n"),
        ch(DiffOp::Delete, "c\n"),
        ch(DiffOp::Insert, "d\n"),
        ch(DiffOp::Equal, "e"),
        ch(DiffOp::Insert, "f"),
    ];
    assert_eq!(inserted_line_numbers(&changes), vec![2, 3, 5]);
}

#[test]
fn checkpoint_line_numbers_records_deletions_in_a_row() {
    let changes = vec![
        ch(DiffOp::Delete, "x\n"),
        ch(DiffOp::Delete, "y\n"),
        ch(DiffOp::Insert, "z\n"),
        ch(DiffOp::Equal, "w\n"),
        ch(DiffOp::Delete, "q\n"),
    ];
    let (added, deleted) = checkpoint_line_numbers(&changes);
    assert_eq!(added, vec![1]);
    assert_eq!(deleted, vec![1, 2, 3]);
}

#[test]
fn checkpoint_line_changes_replacement_and_append() {
    let (added, deleted) = checkpoint_line_changes("a\nb\nc\n", "a\nB\nc\nd\n").unwrap();
    assert_eq!(added, vec![Line::Single(2), Line::Single(4)]);
    assert_eq!(deleted, vec![Line::Single(2)]);
}

#[test]
fn checkpoint_line_changes_missing_final_newline_is_no_change() {
    let (added, deleted) = checkpoint_line_changes("a\nb", "a\nb\n").unwrap();
    assert!(added.is_empty());
    assert!(deleted.is_empty());
}

#[test]
fn checkpoint_line_changes_appended_lines() {
    let (added, deleted) = checkpoint_line_changes("one\n", "one\ntwo\nthree\n").unwrap();
    assert_eq!(added, vec![Line::Range(2, 3)]);
    assert!(deleted.is_empty());
}

#[test]
fn committed_line_ranges_cases() {
    assert_eq!(committed_line_ranges("same\n", "same\n").unwrap(), vec![]);
    assert_eq!(
        committed_line_ranges("a\n", "a\nb\nc").unwrap(),
        vec![LineRange::Range(2, 3)]
    );
    assert_eq!(committed_line_ranges("", "x").unwrap(), vec![LineRange::Single(1)]);
    assert_eq!(committed_line_ranges("a\nb\n", "a\n").unwrap(), vec![]);
}

#[test]
fn unstaged_line_ranges_lines_only_in_working_copy() {
    assert_eq!(
        unstaged_line_ranges("a\nb\n", "a\nX\nb\nY").unwrap(),
        vec![LineRange::Single(2), LineRange::Single(4)]
    );
    assert_eq!(unstaged_line_ranges("a\n", "a").unwrap(), vec![]);
}

#[test]
fn all_line_ranges_of_a_first_commit() {
    assert_eq!(all_line_ranges("a\nb\nc"), vec![LineRange::Range(1, 3)]);
    assert_eq!(all_line_ranges("x\n"), vec![LineRange::Single(1)]);
    assert_eq!(all_line_ranges(""), vec![]);
}

#[test]
fn checkpoint_entries_skip_unchanged_files() {
    let files = vec!["same.rs".to_string(), "changed.rs".to_string()];
    let previous = vec!["x\n".to_string(), "a\n".to_string()];
    let current = vec!["x\n".to_string(), "a\nb\n".to_string()];
    let entries = checkpoint_entries(&files, &previous, &current).unwrap();
    assert_eq!(entries.len(), 1);
    assert_eq!(entries[0].file, "changed.rs");
    assert_eq!(entries[0].added_lines, vec![Line::Single(2)]);
    assert!(entries[0].deleted_lines.is_empty());
}

#[test]
fn inserted_line_texts_strip_line_ends() {
    let changes = vec![
        ch(DiffOp::Equal, "a\n"),
        ch(DiffOp::Insert, "b\r\n"),
        ch(DiffOp::Delete, "c\n"),
        ch(DiffOp::Insert, "d"),
    ];
    assert_eq!(inserted_line_texts(&changes), vec!["b".to_string(), "d".to_string()]);
}

#[test]
fn hanging_line_matches_take_each_line_once() {
    // The new version inserts "x" twice and "z"; the hanging version holds
    // "x" at lines 2 and 4, and no "z".
    let m = hanging_line_matches("a\n", "a\nx\nx\nz\n", "q\nx\nr\nx\n").unwrap();
    assert_eq!(m, vec![Some(2), Some(4), None]);
}
