use lazy_svn::app::App;
use lazy_svn::svn::{
    parse_ignore_patterns, parse_log_output, parse_revision_files, parse_status_output,
    RevisionDiffPlan,
};
use lazy_svn::types::{ActiveWindow, DiffLine, FileTreeNode, LineColor, SvnFile, SvnRevision};
use lazy_svn::workflow::{
    branches_url, delete_args, ignore_line_to_append, revert_args, strip_leading_slashes,
    working_copy_url, BranchListFailure,
};

fn file(status: &str, path: &str) -> SvnFile {
    SvnFile { status: status.to_string(), path: path.to_string() }
}

fn revision(rev: &str) -> SvnRevision {
    SvnRevision {
        revision: rev.to_string(),
        author: "alice".to_string(),
        date: "2024-03-01".to_string(),
        message: "Fix the build".to_string(),
    }
}

fn diff_rows(lines: &[DiffLine]) -> Vec<(String, Option<LineColor>, bool)> {
    lines.iter().map(|l| (l.text.clone(), l.fg, l.bold)).collect()
}

fn strings(v: &[&str]) -> Vec<String> {
    v.iter().map(|s| s.to_string()).collect()
}

#[test]
fn status_output_keeps_lines_longer_than_eight_bytes() {
    let out = "M       src/main.rs\n?       notes.txt\nA  +    lib/x.rs\nshort\n";
    let files = parse_status_output(out);
    let got: Vec<(String, String)> =
        files.iter().map(|f| (f.status.clone(), f.path.clone())).collect();
    assert_eq!(
        got,
        vec![
            ("M".to_string(), "src/main.rs".to_string()),
            ("?".to_string(), "notes.txt".to_string()),
            ("A".to_string(), "lib/x.rs".to_string()),
        ]
    );
}

#[test]
fn status_output_of_exactly_eight_bytes_is_skipped() {
    assert!(parse_status_output("M       \n12345678\n").is_empty());
}

#[test]
fn applying_status_hides_ignored_files_and_selects_first_file_row() {
    let mut app = App::test_new();
    app.ignore_patterns = strings(&["*.txt"]);
    let due = app.apply_status_output("M       src/main.rs\n?       notes.txt\nA       lib/x.rs\n");
    let paths: Vec<&str> = app.file_list.iter().map(|f| f.path.as_str()).collect();
    assert_eq!(paths, vec!["src/main.rs", "lib/x.rs"]);
    assert_eq!(app.visible_items.len(), 4);
    match &app.visible_items[0] {
        FileTreeNode::Dir { path, depth, .. } => {
            assert_eq!(path, "lib/");
            assert_eq!(*depth, 0);
        }
        other => panic!("expected a directory row, got {:?}", other),
    }
    assert!(due);
    assert_eq!(app.file_list_state.selected(), Some(1));
}

#[test]
fn applying_status_keeps_an_existing_selection() {
    let mut app = App::test_new();
    app.file_list_state.select(Some(0));
    let due = app.apply_status_output("M       a.rs\nM       b.rs\n");
    assert!(!due);
    assert_eq!(app.file_list_state.selected(), Some(0));
}

#[test]
fn ignore_file_lines_are_trimmed() {
    let pats = parse_ignore_patterns("  *.log  \r\n#comment\n   # indented comment\nbuild/");
    assert_eq!(pats, strings(&["*.log", "build/"]));
}

#[test]
fn svn_info_gives_revision_and_url() {
    let mut app = App::test_new();
    app.apply_svn_info("Path: .\nURL: https://svn.example.com/repo/trunk \nRevision: 42\n");
    assert_eq!(app.working_copy_revision.as_deref(), Some("42"));
    assert_eq!(app.repository_url.as_deref(), Some("https://svn.example.com/repo/trunk"));
}

#[test]
fn svn_info_without_fields_gives_none() {
    let mut app = App::test_new();
    app.apply_svn_info("svn: E155007: not a working copy\n");
    assert_eq!(app.working_copy_revision, None);
    assert_eq!(app.repository_url, None);
}

const LOG: &str = "------------------------------------------------------------------------
r12 | alice | 2024-03-01 10:00:00 +0100 (Fri, 01 Mar 2024) | 1 line

Fix the build
------------------------------------------------------------------------
r11 | bob | 2024-02-28 09:00:00 +0100 (Wed, 28 Feb 2024) | 2 lines

First line
second line
------------------------------------------------------------------------
";

#[test]
fn log_output_gives_one_entry_per_block() {
    let revs = parse_log_output(LOG);
    assert_eq!(revs.len(), 2);
    assert_eq!(revs[0].revision, "r12");
    assert_eq!(revs[0].author, "alice");
    assert_eq!(revs[0].date, "2024-03-01 10:00:00 +0100 (Fri, 01 Mar 2024)");
    assert_eq!(revs[0].message, "Fix the build");
    assert_eq!(revs[1].revision, "r11");
    assert_eq!(revs[1].message, "First line second line");
}

#[test]
fn log_block_without_fields_is_skipped() {
    let revs = parse_log_output("----\nnot a header\n");
    assert!(revs.is_empty());
}

#[test]
fn applying_log_selects_first_revision_once() {
    let mut app = App::test_new();
    assert!(app.apply_log_output(LOG));
    assert_eq!(app.revision_list_state.selected(), Some(0));
    app.revision_list_state.select(Some(1));
    assert!(!app.apply_log_output(LOG));
    assert_eq!(app.revision_list_state.selected(), Some(1));
}

#[test]
fn revision_files_join_the_path_words() {
    let files = parse_revision_files("M       trunk/a.rs\nA       trunk/my file.txt\n   \nD\n");
    let got: Vec<(String, String)> =
        files.iter().map(|f| (f.status.clone(), f.path.clone())).collect();
    assert_eq!(
        got,
        vec![
            ("M".to_string(), "trunk/a.rs".to_string()),
            ("A".to_string(), "trunk/my file.txt".to_string()),
        ]
    );
}

#[test]
fn revision_diff_plan_asks_for_the_revision_number() {
    let mut app = App::test_new();
    app.revision_list = vec![revision("r5")];
    app.revision_list_state.select(Some(0));
    app.repository_url = Some("https://svn.example.com/repo".to_string());
    match app.plan_revision_diff() {
        RevisionDiffPlan::Fetch(req) => {
            assert_eq!(req.args, strings(&["diff", "-c", "5", "https://svn.example.com/repo"]));
            assert_eq!(req.header, "Revision r5: alice | 2024-03-01 | Fix the build");
        }
        _ => panic!("expected a diff to fetch"),
    }
}

#[test]
fn revision_diff_plan_rejects_a_non_numeric_revision() {
    let mut app = App::test_new();
    app.revision_list = vec![revision("rHEAD")];
    app.revision_list_state.select(Some(0));
    app.diff_scroll = 3;
    assert!(matches!(app.plan_revision_diff(), RevisionDiffPlan::Invalid));
    assert_eq!(
        diff_rows(&app.current_diff),
        vec![("Invalid revision number".to_string(), None, false)]
    );
    assert_eq!(app.diff_scroll, 0);
}

#[test]
fn revision_diff_plan_without_selection() {
    let mut app = App::test_new();
    app.revision_list = vec![revision("r5")];
    assert!(matches!(app.plan_revision_diff(), RevisionDiffPlan::NoSelection));
}

#[test]
fn revision_diff_is_shown_under_its_header() {
    let mut app = App::test_new();
    app.diff_scroll = 7;
    app.current_diff_file = Some("a.rs".to_string());
    app.show_revision_diff("Revision r5: x".to_string(), "+new\n context");
    assert_eq!(
        diff_rows(&app.current_diff),
        vec![
            ("Revision r5: x".to_string(), Some(LineColor::Yellow), true),
            ("+new".to_string(), Some(LineColor::Green), false),
            (" context".to_string(), None, false),
        ]
    );
    assert_eq!(app.diff_scroll, 0);
    assert_eq!(app.current_diff_file, None);
}

#[test]
fn revision_files_plan_and_apply() {
    let mut app = App::test_new();
    app.revision_list = vec![revision("r7")];
    app.revision_list_state.select(Some(0));
    app.revision_file_list_state.select(Some(4));
    let args = app.plan_revision_files().unwrap();
    assert_eq!(args, strings(&["diff", "--summarize", "-c", "7"]));
    app.apply_revision_files("M       a.rs\nA       b.rs\n");
    assert_eq!(app.revision_files.len(), 2);
    assert_eq!(app.revision_file_list_state.selected(), Some(1));
    let req = app.plan_revision_file_diff().unwrap();
    assert_eq!(req.args, strings(&["diff", "-c", "7", "b.rs"]));
    assert_eq!(req.header, "Revision r7 file: b.rs");
}

#[test]
fn revision_files_plan_clears_selection_for_invalid_revision() {
    let mut app = App::test_new();
    app.revision_list = vec![revision("r7x")];
    app.revision_list_state.select(Some(0));
    app.revision_file_list_state.select(Some(0));
    assert_eq!(app.plan_revision_files(), None);
    assert_eq!(app.revision_file_list_state.selected(), None);
    assert!(app.revision_files.is_empty());
}

#[test]
fn update_and_log_arguments() {
    let mut app = App::test_new();
    app.revision_list = vec![revision("r9")];
    app.revision_list_state.select(Some(0));
    assert_eq!(app.plan_update_to_revision(), Some(strings(&["update", "-r", "9"])));
    assert_eq!(app.log_args(), strings(&["log", "-r", "HEAD:1", "--limit", "50"]));
    app.increase_revision_log_limit();
    assert_eq!(app.log_args(), strings(&["log", "-r", "HEAD:1", "--limit", "100"]));
}

#[test]
fn log_limit_saturates() {
    let mut app = App::test_new();
    app.revision_log_limit = usize::MAX - 10;
    app.increase_revision_log_limit();
    assert_eq!(app.revision_log_limit, usize::MAX);
}

#[test]
fn working_copy_url_is_trimmed_output() {
    assert_eq!(working_copy_url("  https://x/repo/trunk\n").as_deref(), Some("https://x/repo/trunk"));
    assert_eq!(working_copy_url(" \n"), None);
}

#[test]
fn branches_url_replaces_every_trunk() {
    assert_eq!(branches_url("https://x/repo/trunk"), "https://x/repo/branches");
    assert_eq!(branches_url("https://x/trunk/a/trunk"), "https://x/branches/a/branches");
    assert_eq!(branches_url("https://x/repo"), "https://x/repo");
}

#[test]
fn branch_list_drops_slashes_and_blank_lines() {
    let mut app = App::test_new();
    app.apply_branch_list("feature-a/\nfeature-b/\n\n");
    assert_eq!(app.branch_list, strings(&["feature-a", "feature-b"]));
    assert_eq!(app.branch_list_state.selected(), Some(0));
}

#[test]
fn branch_failures_are_shown_in_the_panel() {
    let mut app = App::test_new();
    app.branch_list_state.select(Some(2));
    app.show_branch_failure(BranchListFailure::NoWorkingCopyUrl);
    assert_eq!(app.branch_list, strings(&["Error: could not determine working copy URL"]));
    assert_eq!(app.branch_list_state.selected(), None);
    app.show_branch_failure(BranchListFailure::ListFailed(
        "svn: E170000: URL not found\nsecond line".to_string(),
    ));
    assert_eq!(app.branch_list, strings(&["Error: svn: E170000: URL not found"]));
    app.show_branch_failure(BranchListFailure::ListFailed(String::new()));
    assert_eq!(app.branch_list, strings(&["Error: svn list failed"]));
    app.show_branch_failure(BranchListFailure::CouldNotRun);
    assert_eq!(app.branch_list, strings(&["Error: failed to run svn"]));
}

#[test]
fn delete_and_revert_arguments() {
    let targets = strings(&["a.rs", "dir/b.rs"]);
    assert_eq!(delete_args(&targets), strings(&["delete", "--force", "a.rs", "dir/b.rs"]));
    assert_eq!(
        revert_args(&targets),
        strings(&["revert", "--depth", "infinity", "a.rs", "dir/b.rs"])
    );
}

#[test]
fn leading_slashes_are_stripped() {
    assert_eq!(strip_leading_slashes("//tmp/a"), "tmp/a");
    assert_eq!(strip_leading_slashes("src/a"), "src/a");
}

#[test]
fn ignore_line_starts_on_a_new_line() {
    assert_eq!(ignore_line_to_append("a.log", "b.log").as_deref(), Some("\nb.log\n"));
    assert_eq!(ignore_line_to_append("a.log\n", "b.log").as_deref(), Some("b.log\n"));
    assert_eq!(ignore_line_to_append("a.log\n  b.log  \n", "b.log"), None);
}

#[test]
fn pending_targets_are_taken_once() {
    let mut app = App::test_new();
    app.delete_targets = strings(&["a.rs"]);
    app.active_window = ActiveWindow::ConfirmDelete;
    assert_eq!(app.take_delete_targets(), strings(&["a.rs"]));
    assert_eq!(app.active_window, ActiveWindow::ConfirmDelete);
    assert!(app.take_delete_targets().is_empty());
    assert_eq!(app.active_window, ActiveWindow::ChangedFiles);

    app.revert_targets = strings(&["b.rs"]);
    app.active_window = ActiveWindow::ConfirmRevert;
    assert_eq!(app.take_revert_targets(), strings(&["b.rs"]));
    assert!(app.take_revert_targets().is_empty());
    assert_eq!(app.active_window, ActiveWindow::ChangedFiles);

    app.ignore_target = Some("c.log".to_string());
    assert_eq!(app.take_ignore_target().as_deref(), Some("c.log"));
    app.active_window = ActiveWindow::ConfirmIgnore;
    assert_eq!(app.take_ignore_target(), None);
    assert_eq!(app.active_window, ActiveWindow::ChangedFiles);
}

#[test]
fn finishing_a_delete_remembers_the_backup() {
    let mut app = App::test_new();
    app.selected_files.insert("a.rs".to_string());
    app.active_window = ActiveWindow::ConfirmDelete;
    app.finish_delete("/tmp/lazy-svn/1".to_string(), strings(&["a.rs"]));
    assert_eq!(app.last_backup, Some(("/tmp/lazy-svn/1".to_string(), strings(&["a.rs"]))));
    assert!(app.selected_files.is_empty());
    assert_eq!(app.active_window, ActiveWindow::ChangedFiles);
}

#[test]
fn finishing_an_ignore_unmarks_the_file() {
    let mut app = App::test_new();
    app.selected_files.insert("a.log".to_string());
    app.selected_files.insert("b.rs".to_string());
    app.active_window = ActiveWindow::ConfirmIgnore;
    app.finish_ignore("a.log");
    assert!(!app.selected_files.contains("a.log"));
    assert!(app.selected_files.contains("b.rs"));
    assert_eq!(app.active_window, ActiveWindow::ChangedFiles);
}

#[test]
fn file_list_and_files_in_commit_plan() {
    let mut app = App::test_new();
    app.file_list = vec![file("?", "new.rs"), file("M", "old.rs"), file("!", "gone.rs")];
    app.commit_message = "  Add things  ".to_string();
    app.commit_username = "me".to_string();
    let plan = app.plan_commit().unwrap();
    assert_eq!(plan.add_args, Some(strings(&["add", "new.rs"])));
    assert_eq!(plan.delete_args, Some(strings(&["delete", "gone.rs"])));
    assert_eq!(
        plan.commit_args,
        strings(&["commit", "-m", "Add things", "--username", "me", "new.rs", "old.rs", "gone.rs"])
    );
}

#[test]
fn commit_plan_with_marked_files_only() {
    let mut app = App::test_new();
    app.file_list = vec![file("?", "new.rs"), file("M", "old.rs")];
    app.selected_files.insert("old.rs".to_string());
    app.commit_message = "msg".to_string();
    app.commit_password = "pw".to_string();
    let plan = app.plan_commit().unwrap();
    assert_eq!(plan.add_args, None);
    assert_eq!(plan.delete_args, None);
    assert_eq!(plan.commit_args, strings(&["commit", "-m", "msg", "--password", "pw", "old.rs"]));
}

#[test]
fn add_plan_uses_unversioned_files() {
    let mut app = App::test_new();
    app.file_list = vec![file("?", "new.rs"), file("M", "old.rs"), file("?", "other.rs")];
    assert_eq!(app.plan_add(), Some(strings(&["add", "new.rs", "other.rs"])));
    app.selected_files.insert("old.rs".to_string());
    assert_eq!(app.plan_add(), None);
    app.selected_files.insert("other.rs".to_string());
    assert_eq!(app.plan_add(), Some(strings(&["add", "other.rs"])));
}

#[test]
fn finishing_a_commit_clears_the_form() {
    let mut app = App::test_new();
    app.commit_message = "msg".to_string();
    app.commit_message_cursor = 3;
    app.commit_username = "me".to_string();
    app.commit_password = "pw".to_string();
    app.selected_files.insert("a.rs".to_string());
    app.active_window = ActiveWindow::Commit;
    app.finish_commit();
    assert!(app.commit_message.is_empty());
    assert_eq!(app.commit_message_cursor, 0);
    assert!(app.commit_username.is_empty());
    assert!(app.commit_password.is_empty());
    assert!(app.selected_files.is_empty());
    assert_eq!(app.active_window, ActiveWindow::ChangedFiles);
}

#[test]
fn commit_draft_is_restored_with_cursor_at_end() {
    let mut app = App::test_new();
    app.restore_commit_draft("héllo".to_string());
    assert_eq!(app.commit_message, "héllo");
    assert_eq!(app.commit_message_cursor, 6);
    app.restore_commit_draft(String::new());
    assert_eq!(app.commit_message, "héllo");
}

#[test]
fn file_diff_is_fetched_for_the_hovered_file() {
    let mut app = App::test_new();
    app.file_list = vec![file("M", "src/a.rs")];
    app.rebuild_visible_items();
    app.file_list_state.select(Some(0));
    assert_eq!(app.file_diff_target(), None);
    app.file_list_state.select(Some(1));
    assert_eq!(app.file_diff_target().as_deref(), Some("src/a.rs"));
    app.diff_scroll = 4;
    app.show_file_diff("src/a.rs".to_string(), "@@ -1 +1 @@\n-old\n+new");
    assert_eq!(app.current_diff.len(), 3);
    assert_eq!(app.current_diff[1].fg, Some(LineColor::Red));
    assert_eq!(app.current_diff_file.as_deref(), Some("src/a.rs"));
    assert_eq!(app.diff_scroll, 0);
}

#[test]
fn selection_is_saved_sorted_and_restored_for_known_files() {
    let mut app = App::test_new();
    app.file_list = vec![file("M", "b.rs"), file("M", "a.rs")];
    app.selected_files.insert("b.rs".to_string());
    app.selected_files.insert("a.rs".to_string());
    let text = app.selection_file_contents().unwrap();
    assert_eq!(text, "a.rs\nb.rs\n");

    let mut fresh = App::test_new();
    fresh.file_list = vec![file("M", "a.rs")];
    fresh.apply_selection_contents(&text);
    assert!(fresh.selected_files.contains("a.rs"));
    assert!(!fresh.selected_files.contains("b.rs"));
    assert_eq!(fresh.selected_files.len(), 1);
}

#[test]
fn empty_selection_saves_nothing() {
    let app = App::test_new();
    assert_eq!(app.selection_file_contents(), None);
}

#[test]
fn selection_lines_are_trimmed_on_load() {
    let mut app = App::test_new();
    app.file_list = vec![file("M", "a.rs")];
    app.apply_selection_contents("  a.rs \r\n\n");
    assert!(app.selected_files.contains("a.rs"));
}
