use yagg::git::diff::{DiffHunk, DiffLine, LineType};
use yagg::git::staging::{
    apply_hunk_to_content, apply_selected_lines_to_content, reverse_apply_hunk,
};

#[test]
fn test_apply_hunk_to_content() {
    let content = "line1\nline2\nline3\n";
    let hunk = DiffHunk {
        header: "@@ -1,3 +1,3 @@".to_string(),
        old_start: 1,
        old_lines: 3,
        new_start: 1,
        new_lines: 3,
        lines: vec![
            DiffLine {
                content: "line1\n".to_string(),
                line_type: LineType::Context,
                old_lineno: Some(1),
                new_lineno: Some(1),
            },
            DiffLine {
                content: "line2\n".to_string(),
                line_type: LineType::Deletion,
                old_lineno: Some(2),
                new_lineno: None,
            },
            DiffLine {
                content: "modified2\n".to_string(),
                line_type: LineType::Addition,
                old_lineno: None,
                new_lineno: Some(2),
            },
            DiffLine {
                content: "line3\n".to_string(),
                line_type: LineType::Context,
                old_lineno: Some(3),
                new_lineno: Some(3),
            },
        ],
        is_loaded: true,
    };

    let result = apply_hunk_to_content(content, &hunk).unwrap();
    assert!(result.contains("modified2"));
    assert!(!result.contains("line2\n")); // Original line2 should be replaced
}

#[test]
fn test_reverse_apply_hunk() {
    let content = "line1\nmodified2\nline3\n";
    let hunk = DiffHunk {
        header: "@@ -1,3 +1,3 @@".to_string(),
        old_start: 1,
        old_lines: 3,
        new_start: 1,
        new_lines: 3,
        lines: vec![
            DiffLine {
                content: "line1\n".to_string(),
                line_type: LineType::Context,
                old_lineno: Some(1),
                new_lineno: Some(1),
            },
            DiffLine {
                content: "line2\n".to_string(),
                line_type: LineType::Deletion,
                old_lineno: Some(2),
                new_lineno: None,
            },
            DiffLine {
                content: "modified2\n".to_string(),
                line_type: LineType::Addition,
                old_lineno: None,
                new_lineno: Some(2),
            },
            DiffLine {
                content: "line3\n".to_string(),
                line_type: LineType::Context,
                old_lineno: Some(3),
                new_lineno: Some(3),
            },
        ],
        is_loaded: true,
    };

    let result = reverse_apply_hunk(content, &hunk, None).unwrap();
    assert!(result.contains("line2"));
    assert!(!result.contains("modified2"));
}

#[test]
fn test_apply_selected_lines_single_addition() {
    // Original file: line1, line2, line3
    // Change: add "newline" after line1
    // Select only the addition
    let content = "line1\nline2\nline3\n";
    let hunk = DiffHunk {
        header: "@@ -1,3 +1,4 @@".to_string(),
        old_start: 1,
        old_lines: 3,
        new_start: 1,
        new_lines: 4,
        lines: vec![
            DiffLine {
                content: "line1".to_string(),
                line_type: LineType::Context,
                old_lineno: Some(1),
                new_lineno: Some(1),
            },
            DiffLine {
                content: "newline".to_string(),
                line_type: LineType::Addition,
                old_lineno: None,
                new_lineno: Some(2),
            },
            DiffLine {
                content: "line2".to_string(),
                line_type: LineType::Context,
                old_lineno: Some(2),
                new_lineno: Some(3),
            },
            DiffLine {
                content: "line3".to_string(),
                line_type: LineType::Context,
                old_lineno: Some(3),
                new_lineno: Some(4),
            },
        ],
        is_loaded: true,
    };

    let result = apply_selected_lines_to_content(content, &hunk, &[1]).unwrap();
    assert_eq!(result, "line1\nnewline\nline2\nline3\n");
}

#[test]
fn test_apply_selected_lines_preserves_unselected_additions() {
    // Original file: line1, line2, line3
    // Change: add "new1" after line1, add "new2" after new1
    // Select only new1, not new2
    let content = "line1\nline2\nline3\n";
    let hunk = DiffHunk {
        header: "@@ -1,3 +1,5 @@".to_string(),
        old_start: 1,
        old_lines: 3,
        new_start: 1,
        new_lines: 5,
        lines: vec![
            DiffLine {
                content: "line1".to_string(),
                line_type: LineType::Context,
                old_lineno: Some(1),
                new_lineno: Some(1),
            },
            DiffLine {
                content: "new1".to_string(),
                line_type: LineType::Addition,
                old_lineno: None,
                new_lineno: Some(2),
            },
            DiffLine {
                content: "new2".to_string(),
                line_type: LineType::Addition,
                old_lineno: None,
                new_lineno: Some(3),
            },
            DiffLine {
                content: "line2".to_string(),
                line_type: LineType::Context,
                old_lineno: Some(2),
                new_lineno: Some(4),
            },
            DiffLine {
                content: "line3".to_string(),
                line_type: LineType::Context,
                old_lineno: Some(3),
                new_lineno: Some(5),
            },
        ],
        is_loaded: true,
    };

    // Select only index 1 (new1), not index 2 (new2)
    let result = apply_selected_lines_to_content(content, &hunk, &[1]).unwrap();
    assert_eq!(result, "line1\nnew1\nline2\nline3\n");
    assert!(!result.contains("new2"));
}

#[test]
fn test_apply_selected_lines_preserves_unselected_deletions() {
    // Original file: line1, line2, line3
    // Change: delete line2
    // Don't select the deletion (so line2 should stay)
    let content = "line1\nline2\nline3\n";
    let hunk = DiffHunk {
        header: "@@ -1,3 +1,2 @@".to_string(),
        old_start: 1,
        old_lines: 3,
        new_start: 1,
        new_lines: 2,
        lines: vec![
            DiffLine {
                content: "line1".to_string(),
                line_type: LineType::Context,
                old_lineno: Some(1),
                new_lineno: Some(1),
            },
            DiffLine {
                content: "line2".to_string(),
                line_type: LineType::Deletion,
                old_lineno: Some(2),
                new_lineno: None,
            },
            DiffLine {
                content: "line3".to_string(),
                line_type: LineType::Context,
                old_lineno: Some(3),
                new_lineno: Some(2),
            },
        ],
        is_loaded: true,
    };

    // Don't select the deletion (empty selection) - line2 should remain
    let result = apply_selected_lines_to_content(content, &hunk, &[]).unwrap();
    assert_eq!(result, "line1\nline2\nline3\n");
}

#[test]
fn test_apply_selected_lines_deletion_selected() {
    // Original file: line1, line2, line3
    // Change: delete line2
    // Select the deletion (so line2 should be removed)
    let content = "line1\nline2\nline3\n";
    let hunk = DiffHunk {
        header: "@@ -1,3 +1,2 @@".to_string(),
        old_start: 1,
        old_lines: 3,
        new_start: 1,
        new_lines: 2,
        lines: vec![
            DiffLine {
                content: "line1".to_string(),
                line_type: LineType::Context,
                old_lineno: Some(1),
                new_lineno: Some(1),
            },
            DiffLine {
                content: "line2".to_string(),
                line_type: LineType::Deletion,
                old_lineno: Some(2),
                new_lineno: None,
            },
            DiffLine {
                content: "line3".to_string(),
                line_type: LineType::Context,
                old_lineno: Some(3),
                new_lineno: Some(2),
            },
        ],
        is_loaded: true,
    };

    // Select the deletion at index 1
    let result = apply_selected_lines_to_content(content, &hunk, &[1]).unwrap();
    assert_eq!(result, "line1\nline3\n");
    assert!(!result.contains("line2"));
}

#[test]
fn test_apply_selected_lines_mixed_selection() {
    // Original file: line1, old2, line3
    // Change: delete old2, add new2
    // Select both the deletion and the addition
    let content = "line1\nold2\nline3\n";
    let hunk = DiffHunk {
        header: "@@ -1,3 +1,3 @@".to_string(),
        old_start: 1,
        old_lines: 3,
        new_start: 1,
        new_lines: 3,
        lines: vec![
            DiffLine {
                content: "line1".to_string(),
                line_type: LineType::Context,
                old_lineno: Some(1),
                new_lineno: Some(1),
            },
            DiffLine {
                content: "old2".to_string(),
                line_type: LineType::Deletion,
                old_lineno: Some(2),
                new_lineno: None,
            },
            DiffLine {
                content: "new2".to_string(),
                line_type: LineType::Addition,
                old_lineno: None,
                new_lineno: Some(2),
            },
            DiffLine {
                content: "line3".to_string(),
                line_type: LineType::Context,
                old_lineno: Some(3),
                new_lineno: Some(3),
            },
        ],
        is_loaded: true,
    };

    // Select both deletion (1) and addition (2)
    let result = apply_selected_lines_to_content(content, &hunk, &[1, 2]).unwrap();
    assert_eq!(result, "line1\nnew2\nline3\n");
    assert!(!result.contains("old2"));
}

#[test]
fn test_apply_selected_lines_file_integrity() {
    // Test with a larger file to ensure lines before and after hunk are preserved
    let content = "header1\nheader2\nline1\nline2\nline3\nfooter1\nfooter2\n";
    // Hunk starts at line 3 (old_start=3), covers 3 lines
    let hunk = DiffHunk {
        header: "@@ -3,3 +3,4 @@".to_string(),
        old_start: 3,
        old_lines: 3,
        new_start: 3,
        new_lines: 4,
        lines: vec![
            DiffLine {
                content: "line1".to_string(),
                line_type: LineType::Context,
                old_lineno: Some(3),
                new_lineno: Some(3),
            },
            DiffLine {
                content: "inserted".to_string(),
                line_type: LineType::Addition,
                old_lineno: None,
                new_lineno: Some(4),
            },
            DiffLine {
                content: "line2".to_string(),
                line_type: LineType::Context,
                old_lineno: Some(4),
                new_lineno: Some(5),
            },
            DiffLine {
                content: "line3".to_string(),
                line_type: LineType::Context,
                old_lineno: Some(5),
                new_lineno: Some(6),
            },
        ],
        is_loaded: true,
    };

    // Select the addition
    let result = apply_selected_lines_to_content(content, &hunk, &[1]).unwrap();
    assert_eq!(
        result,
        "header1\nheader2\nline1\ninserted\nline2\nline3\nfooter1\nfooter2\n"
    );
}

#[test]
fn test_apply_selected_lines_no_trailing_newline() {
    // File without trailing newline
    let content = "line1\nline2";
    let hunk = DiffHunk {
        header: "@@ -1,2 +1,3 @@".to_string(),
        old_start: 1,
        old_lines: 2,
        new_start: 1,
        new_lines: 3,
        lines: vec![
            DiffLine {
                content: "line1".to_string(),
                line_type: LineType::Context,
                old_lineno: Some(1),
                new_lineno: Some(1),
            },
            DiffLine {
                content: "inserted".to_string(),
                line_type: LineType::Addition,
                old_lineno: None,
                new_lineno: Some(2),
            },
            DiffLine {
                content: "line2".to_string(),
                line_type: LineType::Context,
                old_lineno: Some(2),
                new_lineno: Some(3),
            },
        ],
        is_loaded: true,
    };

    let result = apply_selected_lines_to_content(content, &hunk, &[1]).unwrap();
    // Should preserve absence of trailing newline
    assert_eq!(result, "line1\ninserted\nline2");
    assert!(!result.ends_with('\n'));
}

#[test]
fn test_reverse_apply_hunk_selected_addition() {
    // Working dir content has an added line
    let content = "line1\nnewline\nline2\n";
    let hunk = DiffHunk {
        header: "@@ -1,2 +1,3 @@".to_string(),
        old_start: 1,
        old_lines: 2,
        new_start: 1,
        new_lines: 3,
        lines: vec![
            DiffLine {
                content: "line1\n".to_string(),
                line_type: LineType::Context,
                old_lineno: Some(1),
                new_lineno: Some(1),
            },
            DiffLine {
                content: "newline\n".to_string(),
                line_type: LineType::Addition,
                old_lineno: None,
                new_lineno: Some(2),
            },
            DiffLine {
                content: "line2\n".to_string(),
                line_type: LineType::Context,
                old_lineno: Some(2),
                new_lineno: Some(3),
            },
        ],
        is_loaded: true,
    };

    // Discard just the addition (index 1)
    let result = reverse_apply_hunk(content, &hunk, Some(&[1])).unwrap();
    assert_eq!(result, "line1\nline2\n");
}

#[test]
fn test_reverse_apply_hunk_selected_deletion() {
    // Working dir content is missing a deleted line
    let content = "line1\nline3\n";
    let hunk = DiffHunk {
        header: "@@ -1,3 +1,2 @@".to_string(),
        old_start: 1,
        old_lines: 3,
        new_start: 1,
        new_lines: 2,
        lines: vec![
            DiffLine {
                content: "line1\n".to_string(),
                line_type: LineType::Context,
                old_lineno: Some(1),
                new_lineno: Some(1),
            },
            DiffLine {
                content: "line2\n".to_string(),
                line_type: LineType::Deletion,
                old_lineno: Some(2),
                new_lineno: None,
            },
            DiffLine {
                content: "line3\n".to_string(),
                line_type: LineType::Context,
                old_lineno: Some(3),
                new_lineno: Some(2),
            },
        ],
        is_loaded: true,
    };

    // Discard the deletion (restore line2)
    let result = reverse_apply_hunk(content, &hunk, Some(&[1])).unwrap();
    assert_eq!(result, "line1\nline2\nline3\n");
}

#[test]
fn test_reverse_apply_hunk_partial_selection() {
    // Working dir: line1, new1, new2, line2
    let content = "line1\nnew1\nnew2\nline2\n";
    let hunk = DiffHunk {
        header: "@@ -1,2 +1,4 @@".to_string(),
        old_start: 1,
        old_lines: 2,
        new_start: 1,
        new_lines: 4,
        lines: vec![
            DiffLine {
                content: "line1\n".to_string(),
                line_type: LineType::Context,
                old_lineno: Some(1),
                new_lineno: Some(1),
            },
            DiffLine {
                content: "new1\n".to_string(),
                line_type: LineType::Addition,
                old_lineno: None,
                new_lineno: Some(2),
            },
            DiffLine {
                content: "new2\n".to_string(),
                line_type: LineType::Addition,
                old_lineno: None,
                new_lineno: Some(3),
            },
            DiffLine {
                content: "line2\n".to_string(),
                line_type: LineType::Context,
                old_lineno: Some(2),
                new_lineno: Some(4),
            },
        ],
        is_loaded: true,
    };

    // Discard only new1 (index 1), keep new2 (index 2)
    let result = reverse_apply_hunk(content, &hunk, Some(&[1])).unwrap();
    assert_eq!(result, "line1\nnew2\nline2\n");
}

#[test]
fn test_reverse_apply_hunk_mixed_selection() {
    // Working dir: line1, new2, line3 (old2 was deleted, new2 was added)
    let content = "line1\nnew2\nline3\n";
    let hunk = DiffHunk {
        header: "@@ -1,3 +1,3 @@".to_string(),
        old_start: 1,
        old_lines: 3,
        new_start: 1,
        new_lines: 3,
        lines: vec![
            DiffLine {
                content: "line1\n".to_string(),
                line_type: LineType::Context,
                old_lineno: Some(1),
                new_lineno: Some(1),
            },
            DiffLine {
                content: "old2\n".to_string(),
                line_type: LineType::Deletion,
                old_lineno: Some(2),
                new_lineno: None,
            },
            DiffLine {
                content: "new2\n".to_string(),
                line_type: LineType::Addition,
                old_lineno: None,
                new_lineno: Some(2),
            },
            DiffLine {
                content: "line3\n".to_string(),
                line_type: LineType::Context,
                old_lineno: Some(3),
                new_lineno: Some(3),
            },
        ],
        is_loaded: true,
    };

    // Discard both (revert the whole change)
    let result = reverse_apply_hunk(content, &hunk, Some(&[1, 2])).unwrap();
    assert_eq!(result, "line1\nold2\nline3\n");
}

#[test]
fn test_reverse_apply_hunk_no_trailing_newline() {
    let content = "line1\nadded";
    let hunk = DiffHunk {
        header: "@@ -1,1 +1,2 @@".to_string(),
        old_start: 1,
        old_lines: 1,
        new_start: 1,
        new_lines: 2,
        lines: vec![
            DiffLine {
                content: "line1\n".to_string(),
                line_type: LineType::Context,
                old_lineno: Some(1),
                new_lineno: Some(1),
            },
            DiffLine {
                content: "added".to_string(),
                line_type: LineType::Addition,
                old_lineno: None,
                new_lineno: Some(2),
            },
        ],
        is_loaded: true,
    };

    let result = reverse_apply_hunk(content, &hunk, Some(&[1])).unwrap();
    assert_eq!(result, "line1");
    assert!(!result.ends_with('\n'));
}
use yagg::error::AppError;
use yagg::git::diff::FileDiff;
use yagg::git::staging::{
    discard_hunk, find_conflict, get_file_statuses, index_status_to_type, revert_commit_file_lines,
    revert_mainline, stage_hunk, stage_lines, unstage_hunk, workdir_status_to_type,
    FileStatusType, StatusEntry, StatusFlags,
};

fn line(content: &str, line_type: LineType) -> DiffLine {
    DiffLine {
        content: content.to_string(),
        line_type,
        old_lineno: None,
        new_lineno: None,
    }
}

fn hunk(old_start: u32, new_start: u32, lines: Vec<DiffLine>) -> DiffHunk {
    DiffHunk {
        header: String::new(),
        old_start,
        old_lines: 0,
        new_start,
        new_lines: 0,
        lines,
        is_loaded: true,
    }
}

/// One addition and one deletion at line 2, the addition first.
fn swap_line2() -> DiffHunk {
    hunk(
        2,
        2,
        vec![
            line("modified2\n", LineType::Addition),
            line("line2\n", LineType::Deletion),
        ],
    )
}

fn diff_of(hunks: Vec<DiffHunk>) -> FileDiff {
    FileDiff {
        path: "file.txt".to_string(),
        hunks,
        is_binary: false,
        total_lines: 0,
    }
}

#[test]
fn test_replace_line_and_take_it_back() {
    let content = "line1\nline2\nline3\n";
    let hunk = swap_line2();
    let applied = apply_hunk_to_content(content, &hunk).unwrap();
    assert_eq!(applied, "line1\nmodified2\nline3\n");
    let undone = reverse_apply_hunk(&applied, &hunk, None).unwrap();
    assert_eq!(undone, content);
}

#[test]
fn test_select_only_the_addition_keeps_the_old_line() {
    let content = "line1\nline2\nline3\n";
    let hunk = swap_line2();
    let applied = apply_selected_lines_to_content(content, &hunk, &[0]).unwrap();
    assert_eq!(applied, "line1\nmodified2\nline2\nline3\n");
    let undone = reverse_apply_hunk(&applied, &hunk, Some(&[0])).unwrap();
    assert_eq!(undone, content);
}

#[test]
fn test_deletion_before_addition_keeps_the_old_line_first() {
    let content = "line1\nline2\nline3\n";
    let hunk = hunk(
        2,
        2,
        vec![
            line("line2\n", LineType::Deletion),
            line("modified2\n", LineType::Addition),
        ],
    );
    let applied = apply_selected_lines_to_content(content, &hunk, &[1]).unwrap();
    assert_eq!(applied, "line1\nline2\nmodified2\nline3\n");
}

#[test]
fn test_round_trip_fails_when_a_left_out_change_comes_first() {
    let content = "a\n";
    let hunk = hunk(
        1,
        1,
        vec![line("a\n", LineType::Deletion), line("X\n", LineType::Addition)],
    );
    let applied = apply_selected_lines_to_content(content, &hunk, &[1]).unwrap();
    assert_eq!(applied, "a\nX\n");
    let undone = reverse_apply_hunk(&applied, &hunk, Some(&[1])).unwrap();
    assert_eq!(undone, "X\n");
}

#[test]
fn test_round_trip_with_empty_selection() {
    let content = "line1\nline2\nline3\n";
    let hunk = swap_line2();
    let applied = apply_selected_lines_to_content(content, &hunk, &[]).unwrap();
    assert_eq!(applied, content);
    let undone = reverse_apply_hunk(&applied, &hunk, Some(&[])).unwrap();
    assert_eq!(undone, content);
}

#[test]
fn test_apply_full_equals_apply_all_selected() {
    let content = "line1\nline2\nline3\n";
    let hunk = swap_line2();
    let full = apply_hunk_to_content(content, &hunk).unwrap();
    let all = apply_selected_lines_to_content(content, &hunk, &[0, 1]).unwrap();
    assert_eq!(full, all);
}

#[test]
fn test_header_lines_are_ignored() {
    let content = "a\nb\n";
    let hunk = hunk(
        1,
        1,
        vec![
            line("@@ -1,2 +1,2 @@\n", LineType::Header),
            line("a\n", LineType::Context),
            line("c\n", LineType::Addition),
        ],
    );
    assert_eq!(apply_hunk_to_content(content, &hunk).unwrap(), "a\nc\nb\n");
}

#[test]
fn test_old_start_zero_starts_at_the_first_line() {
    let hunk = hunk(0, 1, vec![line("new\n", LineType::Addition)]);
    assert_eq!(apply_hunk_to_content("", &hunk).unwrap(), "new");
    assert_eq!(apply_hunk_to_content("a\n", &hunk).unwrap(), "new\na\n");
}

#[test]
fn test_hunk_behind_the_end_of_the_text() {
    let hunk = hunk(
        10,
        10,
        vec![
            line("ctx\n", LineType::Context),
            line("gone\n", LineType::Deletion),
            line("new\n", LineType::Addition),
        ],
    );
    assert_eq!(apply_hunk_to_content("a\nb\n", &hunk).unwrap(), "a\nb\nnew\n");
}

#[test]
fn test_addition_loses_all_its_final_line_feeds() {
    let hunk = hunk(1, 1, vec![line("x\n\n\n", LineType::Addition)]);
    assert_eq!(apply_hunk_to_content("a\n", &hunk).unwrap(), "x\na\n");
}

#[test]
fn test_carriage_returns_before_line_feeds_are_dropped() {
    let hunk = hunk(1, 1, vec![line("a\n", LineType::Context)]);
    assert_eq!(apply_hunk_to_content("a\r\nb\r\n", &hunk).unwrap(), "a\nb\n");
    assert_eq!(apply_hunk_to_content("a\rb", &hunk).unwrap(), "a\rb");
    assert_eq!(apply_hunk_to_content("a\r", &hunk).unwrap(), "a\r");
}

#[test]
fn test_lines_agree_with_the_standard_library() {
    let samples = [
        "", "\n", "a", "a\n", "a\n\n", "\n\na", "a\r\n", "a\r", "\r\n\r\n", "a\r\nb", "a\n\rb\n",
        "é\nß\n", "\r", "a\n\r",
    ];
    let nothing = hunk(1, 1, vec![]);
    for sample in samples {
        let expected = sample.lines().collect::<Vec<&str>>().join("\n")
            + if sample.ends_with('\n') { "\n" } else { "" };
        assert_eq!(apply_hunk_to_content(sample, &nothing).unwrap(), expected);
        assert_eq!(reverse_apply_hunk(sample, &nothing, None).unwrap(), expected);
    }
}

#[test]
fn test_deleting_the_only_line_does_not_round_trip() {
    let hunk = hunk(1, 1, vec![line("a\n", LineType::Deletion)]);
    let applied = apply_hunk_to_content("a\n", &hunk).unwrap();
    assert_eq!(applied, "\n");
    assert_eq!(reverse_apply_hunk(&applied, &hunk, None).unwrap(), "a\n\n");
}

#[test]
fn test_stage_hunk_applies_the_hunk() {
    let diff = diff_of(vec![swap_line2()]);
    assert_eq!(
        stage_hunk("line1\nline2\nline3\n", &diff, 0).unwrap(),
        "line1\nmodified2\nline3\n"
    );
}

#[test]
fn test_stage_hunk_index_out_of_range() {
    let diff = diff_of(vec![swap_line2()]);
    let result = stage_hunk("line1\n", &diff, 5);
    assert!(matches!(
        result,
        Err(AppError::IndexOutOfRange { index: 5, len: 1 })
    ));
    assert_eq!(
        result.unwrap_err().to_string(),
        "Invalid path: Hunk index 5 out of range"
    );
}

#[test]
fn test_unstage_hunk_takes_the_hunk_back() {
    let diff = diff_of(vec![swap_line2()]);
    assert_eq!(
        unstage_hunk("line1\nmodified2\nline3\n", &diff, 0).unwrap(),
        "line1\nline2\nline3\n"
    );
    assert!(matches!(
        unstage_hunk("x", &diff, 1),
        Err(AppError::IndexOutOfRange { index: 1, len: 1 })
    ));
}

#[test]
fn test_stage_lines_applies_the_chosen_lines() {
    let diff = diff_of(vec![swap_line2()]);
    assert_eq!(
        stage_lines("line1\nline2\nline3\n", &diff, 0, &[0]).unwrap(),
        "line1\nmodified2\nline2\nline3\n"
    );
    assert!(matches!(
        stage_lines("x", &diff, 7, &[0]),
        Err(AppError::IndexOutOfRange { index: 7, len: 1 })
    ));
}

#[test]
fn test_discard_hunk_whole_and_by_lines() {
    let diff = diff_of(vec![swap_line2()]);
    let content = "line1\nmodified2\nline3\n";
    assert_eq!(
        discard_hunk(content, &diff, 0, None).unwrap(),
        "line1\nline2\nline3\n"
    );
    assert_eq!(
        discard_hunk(content, &diff, 0, Some(&[0])).unwrap(),
        "line1\nline3\n"
    );
    assert!(matches!(
        discard_hunk(content, &diff, 1, None),
        Err(AppError::IndexOutOfRange { index: 1, len: 1 })
    ));
}

fn commit_hunk() -> DiffHunk {
    hunk(
        1,
        1,
        vec![
            line("line1\n", LineType::Context),
            line("line2\n", LineType::Deletion),
            line("modified2\n", LineType::Addition),
            line("line3\n", LineType::Context),
        ],
    )
}

#[test]
fn test_revert_lines_of_a_commit() {
    let diff = diff_of(vec![commit_hunk()]);
    let reverted = revert_commit_file_lines("line1\nmodified2\nline3\n", &diff, 0, &[1, 2]);
    assert_eq!(reverted.unwrap(), "line1\nline2\nline3\n");
}

#[test]
fn test_revert_lines_conflict() {
    let diff = diff_of(vec![commit_hunk()]);
    let result = revert_commit_file_lines("line1\nchanged since\nline3\n", &diff, 0, &[1, 2]);
    match result {
        Err(AppError::RevertConflict(message)) => assert_eq!(
            message,
            "File has been modified since this commit. The revert cannot be applied safely."
        ),
        other => panic!("expected a conflict, got {:?}", other),
    }
}

#[test]
fn test_revert_lines_out_of_range() {
    let diff = diff_of(vec![commit_hunk()]);
    assert!(matches!(
        revert_commit_file_lines("line1\n", &diff, 3, &[0]),
        Err(AppError::IndexOutOfRange { index: 3, len: 1 })
    ));
}

#[test]
fn test_find_conflict_ignores_lines_behind_the_end() {
    assert!(!find_conflict("line1\nmodified2\nline3\n", &commit_hunk()));
    assert!(!find_conflict("line1\n", &commit_hunk()));
    assert!(find_conflict("line1\nmodified2\nother\n", &commit_hunk()));
    assert!(find_conflict("other\n", &commit_hunk()));
}

fn flags() -> StatusFlags {
    StatusFlags::none()
}

#[test]
fn test_index_status_to_type() {
    assert!(matches!(
        index_status_to_type(StatusFlags { index_new: true, ..flags() }),
        FileStatusType::Added
    ));
    assert!(matches!(
        index_status_to_type(StatusFlags { index_modified: true, ..flags() }),
        FileStatusType::Modified
    ));
    assert!(matches!(
        index_status_to_type(StatusFlags { index_deleted: true, ..flags() }),
        FileStatusType::Deleted
    ));
    assert!(matches!(
        index_status_to_type(StatusFlags { index_renamed: true, ..flags() }),
        FileStatusType::Renamed
    ));
}

#[test]
fn test_workdir_status_to_type() {
    assert!(matches!(
        workdir_status_to_type(StatusFlags { wt_modified: true, ..flags() }),
        FileStatusType::Modified
    ));
    assert!(matches!(
        workdir_status_to_type(StatusFlags { wt_deleted: true, ..flags() }),
        FileStatusType::Deleted
    ));
    assert!(matches!(
        workdir_status_to_type(StatusFlags { wt_renamed: true, ..flags() }),
        FileStatusType::Renamed
    ));
}

#[test]
fn test_status_kinds_fall_back_to_modified() {
    assert_eq!(
        index_status_to_type(StatusFlags { index_typechange: true, ..flags() }),
        FileStatusType::Modified
    );
    assert_eq!(
        workdir_status_to_type(StatusFlags { wt_typechange: true, ..flags() }),
        FileStatusType::Modified
    );
    assert_eq!(
        index_status_to_type(StatusFlags { index_new: true, index_deleted: true, ..flags() }),
        FileStatusType::Added
    );
}

#[test]
fn test_get_file_statuses_sorts_files_into_lists() {
    let entries = vec![
        StatusEntry {
            path: "both.txt".to_string(),
            status: StatusFlags { index_modified: true, wt_deleted: true, ..flags() },
        },
        StatusEntry {
            path: "new.txt".to_string(),
            status: StatusFlags { wt_new: true, ..flags() },
        },
        StatusEntry {
            path: "clash.txt".to_string(),
            status: StatusFlags { wt_modified: true, conflicted: true, ..flags() },
        },
        StatusEntry { path: "clean.txt".to_string(), status: flags() },
    ];
    let statuses = get_file_statuses(&entries);
    let shown = |list: &Vec<yagg::git::staging::FileStatus>| {
        list.iter()
            .map(|s| (s.path.clone(), s.status, s.is_staged))
            .collect::<Vec<_>>()
    };
    assert_eq!(
        shown(&statuses.staged),
        vec![("both.txt".to_string(), FileStatusType::Modified, true)]
    );
    assert_eq!(
        shown(&statuses.unstaged),
        vec![
            ("both.txt".to_string(), FileStatusType::Deleted, false),
            ("clash.txt".to_string(), FileStatusType::Modified, false),
            ("clash.txt".to_string(), FileStatusType::Conflicted, false),
        ]
    );
    assert_eq!(
        shown(&statuses.untracked),
        vec![("new.txt".to_string(), FileStatusType::Untracked, false)]
    );
}

#[test]
fn test_round_trip_of_a_balanced_selection() {
    // one addition and one deletion are left out before the chosen addition
    let content = "a\nb\n";
    let hunk = hunk(
        1,
        1,
        vec![
            line("X\n", LineType::Addition),
            line("a\n", LineType::Deletion),
            line("Y\n", LineType::Addition),
            line("b\n", LineType::Context),
        ],
    );
    let applied = apply_selected_lines_to_content(content, &hunk, &[2]).unwrap();
    assert_eq!(applied, "a\nY\nb\n");
    let undone = reverse_apply_hunk(&applied, &hunk, Some(&[2])).unwrap();
    assert_eq!(undone, content);
}

#[test]
fn test_round_trip_without_final_line_feed() {
    let content = "line1\nline2\nline3";
    let hunk = swap_line2();
    let applied = apply_hunk_to_content(content, &hunk).unwrap();
    assert_eq!(applied, "line1\nmodified2\nline3");
    assert_eq!(reverse_apply_hunk(&applied, &hunk, None).unwrap(), content);
}

#[test]
fn test_final_line_feed_stays() {
    let hunk = hunk(1, 1, vec![line("a", LineType::Deletion), line("b", LineType::Addition)]);
    assert_eq!(apply_hunk_to_content("a\n", &hunk).unwrap(), "b\n");
    assert_eq!(apply_hunk_to_content("a", &hunk).unwrap(), "b");
}

#[test]
fn test_revert_mainline() {
    assert_eq!(revert_mainline(0), 0);
    assert_eq!(revert_mainline(1), 0);
    assert_eq!(revert_mainline(2), 1);
    assert_eq!(revert_mainline(8), 1);
}
