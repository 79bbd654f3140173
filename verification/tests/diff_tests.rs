use yagg::error::AppError;
use yagg::git::diff::{
    binary_file_diff, get_diff_hunk, is_binary_content, load_diff, untracked_file_diff,
    DiffCollector, DiffConfig, FileDiff, HunkHeader, LineType, PatchEvent, PatchLine,
    UntrackedLoader,
};

#[test]
fn test_diff_config_default() {
    let config = DiffConfig::default();
    assert_eq!(config.max_diff_bytes, 1_048_576);
    assert_eq!(config.max_file_size, 1_048_576);
}

#[test]
fn test_diff_config_unlimited() {
    let config = DiffConfig::unlimited();
    assert_eq!(config.max_diff_bytes, usize::MAX);
    assert_eq!(config.max_file_size, u64::MAX);
}

fn header(text: &str, start: u32) -> HunkHeader {
    HunkHeader {
        header: text.to_string(),
        old_start: start,
        old_lines: 2,
        new_start: start + 1,
        new_lines: 3,
    }
}

fn event(hunk: Option<&str>, start: u32, origin: char, content: &str) -> PatchEvent {
    PatchEvent {
        is_binary: false,
        hunk: hunk.map(|h| header(h, start)),
        line: PatchLine {
            content: content.to_string(),
            origin,
            old_lineno: Some(1),
            new_lineno: Some(2),
        },
    }
}

fn config(max_diff_bytes: usize) -> DiffConfig {
    DiffConfig { max_diff_bytes, max_file_size: 1_048_576 }
}

fn two_hunks() -> Vec<PatchEvent> {
    vec![
        event(None, 0, 'F', "diff --git a/f b/f\n"),
        event(Some("@@ -1 @@"), 1, 'H', "@@ -1 @@\n"),
        event(Some("@@ -1 @@"), 1, ' ', "same\n"),
        event(Some("@@ -1 @@"), 1, '-', "old\n"),
        event(Some("@@ -1 @@"), 1, '+', "new\n"),
        event(Some("@@ -9 @@"), 9, 'H', "@@ -9 @@\n"),
        event(Some("@@ -9 @@"), 9, '+', "more\n"),
    ]
}

#[test]
fn test_load_diff_within_budget() {
    let diff = load_diff("f", &config(1000), two_hunks());
    assert_eq!(diff.path, "f");
    assert!(!diff.is_binary);
    assert_eq!(diff.total_lines, 6);
    assert_eq!(diff.hunks.len(), 2);

    let first = &diff.hunks[0];
    assert_eq!(first.header, "@@ -1 @@");
    assert_eq!(
        (first.old_start, first.old_lines, first.new_start, first.new_lines),
        (1, 2, 2, 3)
    );
    assert!(first.is_loaded);
    let kinds: Vec<LineType> = first.lines.iter().map(|l| l.line_type).collect();
    assert_eq!(
        kinds,
        vec![LineType::Header, LineType::Context, LineType::Deletion, LineType::Addition]
    );
    assert_eq!(first.lines[1].content, "same\n");
    assert_eq!(first.lines[1].old_lineno, Some(1));
    assert_eq!(first.lines[1].new_lineno, Some(2));

    let second = &diff.hunks[1];
    assert_eq!(second.header, "@@ -9 @@");
    assert_eq!(second.old_start, 9);
    assert!(second.is_loaded);
    assert_eq!(second.lines.len(), 2);
}

#[test]
fn test_load_diff_budget_spent_in_first_hunk() {
    // 9 + 5 = 14 bytes are within the budget, the next 4 bytes are not
    let diff = load_diff("f", &config(15), two_hunks());
    assert_eq!(diff.total_lines, 6);
    assert_eq!(diff.hunks.len(), 2);
    for hunk in &diff.hunks {
        assert!(!hunk.is_loaded);
        assert!(hunk.lines.is_empty());
    }
    assert_eq!(diff.hunks[0].header, "@@ -1 @@");
    assert_eq!(diff.hunks[1].header, "@@ -9 @@");
    assert_eq!(diff.hunks[1].new_start, 10);
}

#[test]
fn test_load_diff_budget_spent_in_second_hunk() {
    // the first hunk holds 9 + 5 + 4 + 4 = 22 bytes
    let diff = load_diff("f", &config(25), two_hunks());
    assert_eq!(diff.total_lines, 6);
    assert!(diff.hunks[0].is_loaded);
    assert_eq!(diff.hunks[0].lines.len(), 4);
    assert!(!diff.hunks[1].is_loaded);
    assert!(diff.hunks[1].lines.is_empty());
}

#[test]
fn test_load_diff_exact_budget_is_not_exceeded() {
    let diff = load_diff("f", &config(36), two_hunks());
    assert!(diff.hunks.iter().all(|h| h.is_loaded));
    let diff = load_diff("f", &config(35), two_hunks());
    assert!(diff.hunks[0].is_loaded);
    assert!(!diff.hunks[1].is_loaded);
}

#[test]
fn test_load_diff_binary() {
    let mut events = two_hunks();
    events.insert(
        3,
        PatchEvent {
            is_binary: true,
            hunk: Some(header("@@ other @@", 4)),
            line: PatchLine {
                content: "Binary files differ\n".to_string(),
                origin: 'B',
                old_lineno: None,
                new_lineno: None,
            },
        },
    );
    let diff = load_diff("f", &config(1000), events);
    assert!(diff.is_binary);
    assert_eq!(diff.total_lines, 6);
    assert_eq!(diff.hunks.len(), 2);
}

#[test]
fn test_load_diff_nothing() {
    let diff = load_diff("f", &config(10), vec![]);
    assert!(diff.hunks.is_empty());
    assert_eq!(diff.total_lines, 0);
    assert!(!diff.is_binary);
}

#[test]
fn test_collector_step_by_step() {
    let mut collector = DiffCollector::new("f", &config(1000));
    assert_eq!(collector.total_lines(), 0);
    for event in two_hunks() {
        collector.on_line(event);
    }
    assert_eq!(collector.total_lines(), 6);
    let diff = collector.finish();
    assert_eq!(diff.hunks.len(), 2);
}

fn some_diff() -> FileDiff {
    load_diff("f", &config(1000), two_hunks())
}

#[test]
fn test_get_diff_hunk() {
    let hunk = get_diff_hunk(some_diff(), 1).unwrap();
    assert_eq!(hunk.header, "@@ -9 @@");
    assert!(hunk.is_loaded);
}

#[test]
fn test_get_diff_hunk_index_out_of_range() {
    let result = get_diff_hunk(some_diff(), 99);
    assert!(matches!(
        result,
        Err(AppError::IndexOutOfRange { index: 99, len: 2 })
    ));
    let result = get_diff_hunk(some_diff(), 2);
    assert!(result.is_err());
}

#[test]
fn test_is_binary_content() {
    assert!(!is_binary_content(b""));
    assert!(!is_binary_content(b"plain text\n"));
    assert!(is_binary_content(b"\0"));
    assert!(is_binary_content(b"abc\0def"));
    let mut late = vec![b'a'; 8192];
    late.push(0);
    assert!(!is_binary_content(&late));
    late[8191] = 0;
    assert!(is_binary_content(&late));
}

#[test]
fn test_binary_file_diff() {
    let diff = binary_file_diff("image.png");
    assert_eq!(diff.path, "image.png");
    assert!(diff.is_binary);
    assert!(diff.hunks.is_empty());
    assert_eq!(diff.total_lines, 0);
}

#[test]
fn test_untracked_file_diff() {
    let diff = untracked_file_diff("new.txt", "first\nsecond\r\nthird");
    assert_eq!(diff.path, "new.txt");
    assert!(!diff.is_binary);
    assert_eq!(diff.total_lines, 3);
    assert_eq!(diff.hunks.len(), 1);
    let hunk = &diff.hunks[0];
    assert_eq!(hunk.header, "@@ -0,0 +1,3 @@\n");
    assert_eq!(
        (hunk.old_start, hunk.old_lines, hunk.new_start, hunk.new_lines),
        (0, 0, 1, 3)
    );
    assert!(hunk.is_loaded);
    let contents: Vec<&str> = hunk.lines.iter().map(|l| l.content.as_str()).collect();
    assert_eq!(contents, vec!["first\n", "second\n", "third\n"]);
    for (i, line) in hunk.lines.iter().enumerate() {
        assert_eq!(line.line_type, LineType::Addition);
        assert_eq!(line.old_lineno, None);
        assert_eq!(line.new_lineno, Some(i as u32 + 1));
    }
}

#[test]
fn test_untracked_file_diff_empty_file() {
    let diff = untracked_file_diff("empty.txt", "");
    assert!(diff.hunks.is_empty());
    assert!(!diff.is_binary);
    assert_eq!(diff.total_lines, 0);
}

#[test]
fn test_untracked_file_diff_many_lines() {
    let text = "x\n".repeat(1234);
    let diff = untracked_file_diff("many.txt", &text);
    assert_eq!(diff.total_lines, 1234);
    assert_eq!(diff.hunks[0].header, "@@ -0,0 +1,1234 @@\n");
    assert_eq!(diff.hunks[0].new_lines, 1234);
    assert_eq!(diff.hunks[0].lines.len(), 1234);
}

#[test]
fn test_untracked_loader_within_budget() {
    let mut loader = UntrackedLoader::new(&config(100));
    loader.on_line("one".to_string());
    loader.on_line("two".to_string());
    assert_eq!(loader.total_lines(), 2);
    let diff = loader.finish("big.txt");
    assert_eq!(diff.path, "big.txt");
    assert_eq!(diff.total_lines, 2);
    assert_eq!(diff.hunks.len(), 1);
    let hunk = &diff.hunks[0];
    assert_eq!(hunk.header, "@@ -0,0 +1,2 @@\n");
    assert!(hunk.is_loaded);
    assert_eq!(hunk.new_lines, 2);
    assert_eq!(hunk.lines[0].content, "one\n");
    assert_eq!(hunk.lines[1].content, "two\n");
    assert_eq!(hunk.lines[1].new_lineno, Some(2));
    assert_eq!(hunk.lines[1].line_type, LineType::Addition);
}

#[test]
fn test_untracked_loader_budget_spent() {
    let mut loader = UntrackedLoader::new(&config(10));
    for i in 0..10000 {
        loader.on_line(format!("line number {}", i));
    }
    let diff = loader.finish("big.txt");
    assert!(!diff.is_binary);
    assert_eq!(diff.total_lines, 10000);
    assert_eq!(diff.hunks.len(), 1);
    let hunk = &diff.hunks[0];
    assert!(!hunk.is_loaded);
    assert!(hunk.lines.is_empty());
    assert_eq!(hunk.header, "@@ -0,0 +1,10000 @@\n");
    assert_eq!(hunk.new_lines, 10000);
}

#[test]
fn test_untracked_loader_no_lines() {
    let diff = UntrackedLoader::new(&config(10)).finish("none.txt");
    assert_eq!(diff.hunks.len(), 1);
    assert_eq!(diff.hunks[0].header, "@@ -0,0 +1,0 @@\n");
    assert!(diff.hunks[0].is_loaded);
    assert_eq!(diff.total_lines, 0);
}
