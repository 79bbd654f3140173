use yagg::error::AppError;
use yagg::git::commit::{commit_to_info, file_change, first_line, short_hash, DeltaKind};
use yagg::git::stash::{parse_branch_from_stash_message, stash_details, stash_info};
use yagg::text::decimal;

#[test]
fn test_parse_branch_from_stash_message() {
    assert_eq!(
        parse_branch_from_stash_message("WIP on main: abc123 commit message"),
        "main"
    );
    assert_eq!(
        parse_branch_from_stash_message("WIP on feature/test: abc123 commit message"),
        "feature/test"
    );
    assert_eq!(
        parse_branch_from_stash_message("On main: custom message"),
        "main"
    );
    assert_eq!(parse_branch_from_stash_message("Random message"), "");
}

#[test]
fn test_parse_branch_edge_cases() {
    assert_eq!(parse_branch_from_stash_message(""), "");
    assert_eq!(parse_branch_from_stash_message("WIP on main"), "");
    assert_eq!(parse_branch_from_stash_message("WIP on : x"), "");
    assert_eq!(parse_branch_from_stash_message("On a:b:c"), "a");
    assert_eq!(parse_branch_from_stash_message("WIP on On x: y"), "On x");
    assert_eq!(parse_branch_from_stash_message("on main: x"), "");
    assert_eq!(parse_branch_from_stash_message("WIP on"), "");
    assert_eq!(parse_branch_from_stash_message("On ünï: x"), "ünï");
}

#[test]
fn test_stash_info_names_the_branch() {
    let info = stash_info(2, "WIP on dev: 1234567 work".to_string(), "abc".to_string(), 17);
    assert_eq!(info.index, 2);
    assert_eq!(info.message, "WIP on dev: 1234567 work");
    assert_eq!(info.commit_hash, "abc");
    assert_eq!(info.timestamp, 17);
    assert_eq!(info.branch_name, "dev");
    let details = stash_details(0, "On main: x".to_string(), "def".to_string(), 3, vec![]);
    assert_eq!(details.branch_name, "main");
    assert!(details.files_changed.is_empty());
}

#[test]
fn test_no_repository_error_display() {
    let error = AppError::NoRepository;
    assert_eq!(error.to_string(), "No repository open");
}

#[test]
fn test_invalid_path_error_display() {
    let error = AppError::InvalidPath("/bad/path".to_string());
    assert_eq!(error.to_string(), "Invalid path: /bad/path");
}

#[test]
fn test_io_error_conversion() {
    let io_error = std::io::Error::new(std::io::ErrorKind::NotFound, "file not found");
    let app_error = AppError::Io(format!("{}", io_error));
    assert!(app_error.to_string().contains("file not found"));
}

#[test]
fn test_error_messages() {
    assert_eq!(AppError::Git("bad object".to_string()).to_string(), "Git error: bad object");
    assert_eq!(AppError::Io("denied".to_string()).to_string(), "IO error: denied");
    assert_eq!(
        AppError::RevertConflict("changed".to_string()).to_string(),
        "Revert conflict: changed"
    );
    assert_eq!(
        AppError::IndexOutOfRange { index: 120, len: 3 }.to_string(),
        "Invalid path: Hunk index 120 out of range"
    );
}

#[test]
fn test_decimal() {
    assert_eq!(decimal(0), "0");
    assert_eq!(decimal(7), "7");
    assert_eq!(decimal(10), "10");
    assert_eq!(decimal(1234567890), "1234567890");
    assert_eq!(decimal(u64::MAX), "18446744073709551615");
}

#[test]
fn test_short_hash() {
    assert_eq!(short_hash("0123456789abcdef"), "0123456");
    assert_eq!(short_hash("abc1234"), "abc1234");
    assert_eq!(short_hash("abc"), "abc");
    assert_eq!(short_hash(""), "");
}

#[test]
fn test_first_line() {
    assert_eq!(first_line("subject\n\nbody\n"), "subject");
    assert_eq!(first_line("subject"), "subject");
    assert_eq!(first_line("subject\r\nbody"), "subject");
    assert_eq!(first_line(""), "");
    assert_eq!(first_line("\nbody"), "");
}

#[test]
fn test_commit_to_info() {
    let info = commit_to_info(
        "0123456789abcdef".to_string(),
        "fix: a thing\n\nlong text\n",
        "Ada".to_string(),
        "ada@example.com".to_string(),
        42,
        vec!["fedcba".to_string()],
    );
    assert_eq!(info.hash, "0123456789abcdef");
    assert_eq!(info.short_hash, "0123456");
    assert_eq!(info.message, "fix: a thing");
    assert_eq!(info.author_name, "Ada");
    assert_eq!(info.author_email, "ada@example.com");
    assert_eq!(info.timestamp, 42);
    assert_eq!(info.parent_hashes, vec!["fedcba".to_string()]);
}

#[test]
fn test_file_change() {
    let old = Some("old.txt".to_string());
    let words = [
        (DeltaKind::Added, "added", false),
        (DeltaKind::Deleted, "deleted", false),
        (DeltaKind::Modified, "modified", false),
        (DeltaKind::Renamed, "renamed", true),
        (DeltaKind::Copied, "copied", true),
        (DeltaKind::Other, "modified", false),
    ];
    for (kind, word, keeps) in words {
        let change = file_change("new.txt".to_string(), kind, old.clone());
        assert_eq!(change.path, "new.txt");
        assert_eq!(change.status, word);
        assert_eq!(change.old_path, if keeps { old.clone() } else { None });
    }
}

use yagg::commands::branches::{
    branch_info, comes_before, is_checked_out, remote_ref_name, sort_tags, tag_info,
};
use yagg::crash_handler::crash_dialog_text;
use yagg::git::repository::{repo_info, HeadRef};

#[test]
fn test_branch_info_marks_the_head() {
    let head = branch_info("main".to_string(), false, Some("main"), "abc".to_string());
    assert_eq!(head.name, "main");
    assert_eq!(head.target_hash, "abc");
    assert!(!head.is_remote);
    assert!(head.is_head);
    let other = branch_info("dev".to_string(), false, Some("main"), "def".to_string());
    assert!(!other.is_head);
    let remote = branch_info("main".to_string(), true, Some("main"), "abc".to_string());
    assert!(remote.is_remote);
    assert!(!remote.is_head);
    let headless = branch_info("main".to_string(), false, None, "abc".to_string());
    assert!(!headless.is_head);
}

#[test]
fn test_tag_info() {
    let annotated = tag_info(
        "refs/tags/v1.0",
        "abc".to_string(),
        Some(Some("first release".to_string())),
    );
    assert_eq!(annotated.name, "v1.0");
    assert_eq!(annotated.target_hash, "abc");
    assert!(annotated.is_annotated);
    assert_eq!(annotated.message, Some("first release".to_string()));
    let silent = tag_info("refs/tags/v1.1", "abd".to_string(), Some(None));
    assert!(silent.is_annotated);
    assert_eq!(silent.message, None);
    let light = tag_info("refs/tags/v2.0", "def".to_string(), None);
    assert_eq!(light.name, "v2.0");
    assert!(!light.is_annotated);
    assert_eq!(light.message, None);
}

#[test]
fn test_remote_ref_name() {
    assert_eq!(remote_ref_name("origin/main"), "refs/remotes/origin/main");
    assert_eq!(remote_ref_name(""), "refs/remotes/");
}

#[test]
fn test_is_checked_out() {
    assert!(is_checked_out(true, Some("main"), "main"));
    assert!(!is_checked_out(false, Some("main"), "main"));
    assert!(!is_checked_out(true, Some("main"), "dev"));
    assert!(!is_checked_out(true, None, "main"));
}

#[test]
fn test_repo_info() {
    let on_branch = repo_info(
        "/repo".to_string(),
        Some(HeadRef {
            is_branch: true,
            shorthand: Some("main".to_string()),
            hash: Some("abc".to_string()),
        }),
        vec!["origin".to_string()],
    );
    assert_eq!(on_branch.path, "/repo");
    assert_eq!(on_branch.current_branch, Some("main".to_string()));
    assert!(!on_branch.is_detached);
    assert_eq!(on_branch.remotes, vec!["origin".to_string()]);
    assert_eq!(on_branch.head_hash, Some("abc".to_string()));

    let detached = repo_info(
        "/repo".to_string(),
        Some(HeadRef {
            is_branch: false,
            shorthand: Some("HEAD".to_string()),
            hash: Some("abc".to_string()),
        }),
        vec![],
    );
    assert_eq!(detached.current_branch, None);
    assert!(detached.is_detached);
    assert_eq!(detached.head_hash, Some("abc".to_string()));

    let unborn = repo_info("/repo".to_string(), None, vec![]);
    assert_eq!(unborn.current_branch, None);
    assert!(!unborn.is_detached);
    assert_eq!(unborn.head_hash, None);
}

#[test]
fn test_crash_dialog_text() {
    assert_eq!(
        crash_dialog_text(Some("/tmp/crash.log")),
        "yagg crashed unexpectedly.\n\nDetails saved to:\n/tmp/crash.log"
    );
    assert_eq!(
        crash_dialog_text(None),
        "yagg crashed unexpectedly.\n\nCould not write crash log."
    );
}

#[test]
fn test_sort_tags_by_name() {
    let names = [
        "v1.10", "v1.2", "", "alpha", "Beta", "v1.2", "é", "z", "v1", "ab", "a", "éa", "日本", "~",
    ];
    let tags = names
        .iter()
        .enumerate()
        .map(|(i, name)| tag_info(name, format!("{}", i), None))
        .collect();
    let sorted = sort_tags(tags);
    let mut expected: Vec<(String, String)> = names
        .iter()
        .enumerate()
        .map(|(i, name)| (name.to_string(), format!("{}", i)))
        .collect();
    expected.sort_by(|a, b| a.0.cmp(&b.0));
    let got: Vec<(String, String)> = sorted
        .into_iter()
        .map(|t| (t.name, t.target_hash))
        .collect();
    assert_eq!(got, expected);
}

#[test]
fn test_comes_before() {
    assert!(comes_before("a", "b"));
    assert!(!comes_before("b", "a"));
    assert!(!comes_before("a", "a"));
    assert!(comes_before("", "a"));
    assert!(!comes_before("a", ""));
    assert!(!comes_before("", ""));
    assert!(comes_before("ab", "abc"));
    assert!(comes_before("Z", "a"));
    assert!(comes_before("z", "é"));
    assert!(comes_before("v1.10", "v1.2"));
}

#[test]
fn test_commit_to_info_multiline_message() {
    let info = commit_to_info(
        "0123456789abcdef0123456789abcdef01234567".to_string(),
        "First line\nSecond line\nThird line",
        "Test User".to_string(),
        "test@example.com".to_string(),
        0,
        vec![],
    );

    // Should only show first line in message
    assert_eq!(info.message, "First line");
}
