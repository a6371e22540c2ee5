use lazy_svn::app::App;
use lazy_svn::keys::{key_action, Key, KeyAction};
use lazy_svn::svn::parse_ignore_patterns;
use lazy_svn::types::{ActiveWindow, DiffLine, FileTreeNode, PathSet, SvnFile, SvnRevision};
use lazy_svn::view::{
    files_panel_highlighted, parse_u64, revision_row_text, status_color, tree_row_text,
    RevisionMark, StatusColor,
};
use lazy_svn::workflow::ignore_line_to_append;

fn file(status: &str, path: &str) -> SvnFile {
    SvnFile { status: status.to_string(), path: path.to_string() }
}

fn tree_app(paths: &[&str]) -> App {
    let mut app = App::test_new();
    app.file_list = paths.iter().map(|p| file("M", p)).collect();
    app.rebuild_visible_items();
    app
}

fn rev(r: &str, message: &str) -> SvnRevision {
    SvnRevision {
        revision: r.to_string(),
        author: "bob".to_string(),
        date: "2024-02-28".to_string(),
        message: message.to_string(),
    }
}

fn chars(s: &str) -> Vec<char> {
    s.chars().collect()
}

#[test]
fn help_round_trip_restores_the_window() {
    let mut app = App::test_new();
    app.active_window = ActiveWindow::Revisions;
    app.open_help();
    app.close_help();
    assert_eq!(app.active_window, ActiveWindow::Revisions);
    assert_eq!(app.prev_window, None);
}

#[test]
fn backspace_undoes_typing() {
    let mut app = App::test_new();
    app.commit_message = "añb".to_string();
    app.commit_message_cursor = 3;
    app.commit_message_insert_char('€');
    assert_eq!(app.commit_message, "añ€b");
    app.commit_message_delete_before_cursor();
    assert_eq!(app.commit_message, "añb");
    assert_eq!(app.commit_message_cursor, 3);
}

#[test]
fn left_then_right_returns_the_cursor() {
    let mut app = App::test_new();
    app.commit_message = "aé".to_string();
    app.commit_message_cursor = 3;
    app.commit_message_move_left();
    assert_eq!(app.commit_message_cursor, 1);
    app.commit_message_move_right();
    assert_eq!(app.commit_message_cursor, 3);
    app.commit_message_cursor = 0;
    app.commit_message_move_right();
    app.commit_message_move_left();
    assert_eq!(app.commit_message_cursor, 0);
}

#[test]
fn file_cursor_down_then_up_returns() {
    let mut app = tree_app(&["a.rs", "b.rs", "c.rs"]);
    app.file_list_state.select(Some(2));
    assert!(app.next_file());
    assert_eq!(app.file_list_state.selected(), Some(0));
    assert!(app.previous_file());
    assert_eq!(app.file_list_state.selected(), Some(2));
}

#[test]
fn revision_cursor_round_trips() {
    let mut app = App::test_new();
    app.revision_list = vec![rev("r3", ""), rev("r2", ""), rev("r1", "")];
    app.revision_list_state.select(Some(0));
    assert!(app.previous_revision());
    assert_eq!(app.revision_list_state.selected(), Some(2));
    assert!(app.next_revision());
    assert_eq!(app.revision_list_state.selected(), Some(0));
}

#[test]
fn revision_file_cursor_round_trips() {
    let mut app = App::test_new();
    app.apply_revision_files("M       a\nM       b\n");
    app.revision_file_list_state.select(Some(1));
    assert!(app.next_revision_file());
    assert_eq!(app.revision_file_list_state.selected(), Some(0));
    assert!(app.previous_revision_file());
    assert_eq!(app.revision_file_list_state.selected(), Some(1));
}

#[test]
fn previous_revision_file_without_selection_goes_to_last() {
    let mut app = App::test_new();
    app.apply_revision_files("M       a\nM       b\nM       c\n");
    app.revision_file_list_state.select(None);
    assert!(app.previous_revision_file());
    assert_eq!(app.revision_file_list_state.selected(), Some(2));
}

#[test]
fn branch_cursor_round_trips() {
    let mut app = App::test_new();
    app.branch_list = vec!["a".to_string(), "b".to_string()];
    app.branch_list_state.select(Some(1));
    app.next_branch();
    assert_eq!(app.branch_list_state.selected(), Some(0));
    app.previous_branch();
    assert_eq!(app.branch_list_state.selected(), Some(1));
}

#[test]
fn scroll_down_then_up_returns() {
    let mut app = App::test_new();
    app.current_diff = (0..5).map(|i| DiffLine { text: i.to_string(), fg: None, bold: false }).collect();
    app.diff_scroll = 2;
    app.scroll_diff_down();
    assert_eq!(app.diff_scroll, 3);
    app.scroll_diff_up();
    assert_eq!(app.diff_scroll, 2);
}

#[test]
fn toggling_a_file_twice_keeps_the_marks() {
    let mut app = tree_app(&["a.rs", "b.rs"]);
    app.selected_files.insert("b.rs".to_string());
    app.file_list_state.select(Some(0));
    app.toggle_file_selection();
    assert!(app.selected_files.contains("a.rs"));
    app.toggle_file_selection();
    assert!(!app.selected_files.contains("a.rs"));
    assert!(app.selected_files.contains("b.rs"));
    assert_eq!(app.selected_files.len(), 1);
}

#[test]
fn folding_twice_restores_the_tree() {
    let mut app = tree_app(&["src/a.rs", "src/sub/b.rs", "z.rs"]);
    let before: Vec<String> = app.visible_items.iter().map(|n| format!("{:?}", n)).collect();
    app.file_list_state.select(Some(0));
    app.toggle_folder();
    assert!(app.collapsed_dirs.contains("src/"));
    assert_eq!(app.visible_items.len(), 2);
    assert_eq!(app.file_list_state.selected(), Some(0));
    match &app.visible_items[0] {
        FileTreeNode::Dir { path, collapsed, .. } => {
            assert_eq!(path, "src/");
            assert!(*collapsed);
        }
        other => panic!("expected the folded directory, got {:?}", other),
    }
    app.toggle_folder();
    let after: Vec<String> = app.visible_items.iter().map(|n| format!("{:?}", n)).collect();
    assert_eq!(before, after);
    assert!(app.collapsed_dirs.is_empty());
    assert_eq!(app.file_list_state.selected(), Some(0));
}

#[test]
fn folding_a_nested_directory_keeps_the_cursor_on_it() {
    let mut app = tree_app(&["src/a.rs", "src/sub/b.rs", "src/sub/c.rs"]);
    // Rows: src/, src/sub/, b.rs, c.rs, a.rs
    app.file_list_state.select(Some(1));
    app.toggle_folder();
    assert_eq!(app.visible_items.len(), 3);
    match &app.visible_items[1] {
        FileTreeNode::Dir { path, .. } => assert_eq!(path, "src/sub/"),
        other => panic!("expected src/sub/, got {:?}", other),
    }
}

#[test]
fn saved_selection_reads_back() {
    let mut app = tree_app(&["x/b.rs", "a.rs"]);
    app.selected_files.insert("x/b.rs".to_string());
    app.selected_files.insert("gone.rs".to_string());
    let text = app.selection_file_contents().unwrap();
    let mut back = tree_app(&["x/b.rs", "a.rs"]);
    back.apply_selection_contents(&text);
    assert!(back.selected_files.contains("x/b.rs"));
    assert!(!back.selected_files.contains("gone.rs"));
    assert_eq!(back.selected_files.len(), 1);
}

#[test]
fn ignored_file_is_hidden_after_reload() {
    let existing = "*.tmp\n# notes";
    let addition = ignore_line_to_append(existing, "logs/run.log").unwrap();
    let contents = format!("{}{}", existing, addition);
    let mut app = App::test_new();
    app.ignore_patterns = parse_ignore_patterns(&contents);
    assert_eq!(app.ignore_patterns, vec!["*.tmp".to_string(), "logs/run.log".to_string()]);
    app.apply_status_output("M       logs/run.log\nM       src/a.rs\n");
    let paths: Vec<&str> = app.file_list.iter().map(|f| f.path.as_str()).collect();
    assert_eq!(paths, vec!["src/a.rs"]);
}

#[test]
fn tab_cycles_through_the_four_panels() {
    let mut w = ActiveWindow::ChangedFiles;
    let mut seen = Vec::new();
    for _ in 0..4 {
        match key_action(w, Key::Tab) {
            KeyAction::Focus(next) => w = next,
            other => panic!("Tab gave {:?}", other),
        }
        seen.push(w);
    }
    assert_eq!(
        seen,
        vec![
            ActiveWindow::Branches,
            ActiveWindow::Revisions,
            ActiveWindow::Diff,
            ActiveWindow::ChangedFiles
        ]
    );
}

#[test]
fn keys_map_to_actions() {
    assert_eq!(key_action(ActiveWindow::Diff, Key::Char('q')), KeyAction::Quit);
    assert_eq!(key_action(ActiveWindow::ChangedFiles, Key::Char('j')), KeyAction::NextFile);
    assert_eq!(key_action(ActiveWindow::ChangedFiles, Key::Char('k')), KeyAction::PreviousFile);
    assert_eq!(key_action(ActiveWindow::Branches, Key::Char('j')), KeyAction::Ignore);
    assert_eq!(key_action(ActiveWindow::Branches, Key::Char('r')), KeyAction::Refresh);
    assert_eq!(key_action(ActiveWindow::Help, Key::Tab), KeyAction::Focus(ActiveWindow::Help));
    assert_eq!(key_action(ActiveWindow::Diff, Key::Other), KeyAction::Ignore);
}

#[test]
fn numbers_parse_as_u64_does() {
    assert_eq!(parse_u64(&chars("42")), Some(42));
    assert_eq!(parse_u64(&chars("+7")), Some(7));
    assert_eq!(parse_u64(&chars("007")), Some(7));
    assert_eq!(parse_u64(&chars("18446744073709551615")), Some(u64::MAX));
    assert_eq!(parse_u64(&chars("18446744073709551616")), None);
    assert_eq!(parse_u64(&chars("")), None);
    assert_eq!(parse_u64(&chars("+")), None);
    assert_eq!(parse_u64(&chars("-1")), None);
    assert_eq!(parse_u64(&chars("4a")), None);
    for s in ["0", "99", "+12", "x", "1 2"] {
        assert_eq!(parse_u64(&chars(s)), s.parse::<u64>().ok());
    }
}

#[test]
fn revision_rows_are_marked_against_the_working_copy() {
    let wc = Some("11".to_string());
    let (text, mark) = revision_row_text(&rev("r11", "Fix"), &wc);
    assert_eq!(text, "r11 | bob | 2024-02-28 | Fix [working copy]");
    assert_eq!(mark, RevisionMark::WorkingCopy);
    let (text, mark) = revision_row_text(&rev("r12", ""), &wc);
    assert_eq!(text, "r12 | bob | 2024-02-28 [remote]");
    assert_eq!(mark, RevisionMark::Remote);
    let (text, mark) = revision_row_text(&rev("r10", "Old"), &wc);
    assert_eq!(text, "r10 | bob | 2024-02-28 | Old");
    assert_eq!(mark, RevisionMark::Plain);
    let (_, mark) = revision_row_text(&rev("r10", "Old"), &None);
    assert_eq!(mark, RevisionMark::Plain);
}

#[test]
fn tree_rows_have_indent_icon_and_mark() {
    let mut marked = PathSet::new();
    marked.insert("src/a.rs".to_string());
    let dir = FileTreeNode::Dir { path: "src/".into(), name: "src".into(), depth: 1, collapsed: true };
    assert_eq!(tree_row_text(&dir, &marked), "  ▶ src/");
    let open = FileTreeNode::Dir { path: "src/".into(), name: "src".into(), depth: 0, collapsed: false };
    assert_eq!(tree_row_text(&open, &marked), "▼ src/");
    let f = FileTreeNode::File { status: "M".into(), path: "src/a.rs".into(), name: "a.rs".into(), depth: 2 };
    assert_eq!(tree_row_text(&f, &marked), "    [✓] M a.rs");
    let g = FileTreeNode::File { status: "?".into(), path: "b.rs".into(), name: "b.rs".into(), depth: 0 };
    assert_eq!(tree_row_text(&g, &marked), "[ ] ? b.rs");
}

#[test]
fn status_colours() {
    assert_eq!(status_color("M"), StatusColor::Blue);
    assert_eq!(status_color("A"), StatusColor::Green);
    assert_eq!(status_color("D"), StatusColor::Red);
    assert_eq!(status_color("?"), StatusColor::White);
}

#[test]
fn commit_scope_hint_counts_files() {
    let mut app = App::test_new();
    app.file_list = vec![file("M", "a.rs"), file("M", "b.rs")];
    assert_eq!(app.commit_scope_hint(), "Committing all 2 changed file(s)");
    app.selected_files.insert("a.rs".to_string());
    assert_eq!(app.commit_scope_hint(), "Committing 1 selected file(s)");
}

#[test]
fn delete_prompt_lists_at_most_eight_paths() {
    let mut app = App::test_new();
    app.delete_targets = (0..10).map(|i| format!("f{}.rs", i)).collect();
    let lines = app.delete_prompt_lines();
    assert_eq!(lines.len(), 13);
    assert_eq!(lines[0], "About to delete 10 item(s):");
    assert_eq!(lines[1], "");
    assert_eq!(lines[2], "  f0.rs");
    assert_eq!(lines[9], "  f7.rs");
    assert_eq!(lines[10], "  … and 2 more");
    assert_eq!(lines[12], "[y] confirm  [n / Esc] cancel");
    app.delete_targets = vec!["only.rs".to_string()];
    assert_eq!(
        app.delete_prompt_lines(),
        vec!["About to delete 1 item(s):", "", "  only.rs", "", "[y] confirm  [n / Esc] cancel"]
    );
}

#[test]
fn ignore_prompt_names_the_target() {
    let mut app = App::test_new();
    assert_eq!(app.ignore_prompt_lines()[2], "  <unknown>");
    app.ignore_target = Some("a.log".to_string());
    assert_eq!(
        app.ignore_prompt_lines(),
        vec!["Add to ignore list?", "", "  a.log", "", "[y] confirm  [n / Esc] cancel"]
    );
}

#[test]
fn password_is_masked_per_byte() {
    let mut app = App::test_new();
    app.commit_password = "pä".to_string();
    assert_eq!(app.masked_password(), "***");
}

#[test]
fn only_the_last_delete_is_undone() {
    let mut app = App::test_new();
    app.finish_delete("/tmp/lazy-svn/7".to_string(), vec!["a.rs".to_string()]);
    assert_eq!(
        app.take_last_backup(),
        Some(("/tmp/lazy-svn/7".to_string(), vec!["a.rs".to_string()]))
    );
    assert_eq!(app.take_last_backup(), None);
}

#[test]
fn ignoring_twice_writes_once() {
    for existing in ["", "a.log", "a.log\n"] {
        let first = ignore_line_to_append(existing, "b.log").unwrap();
        let after = format!("{}{}", existing, first);
        assert_eq!(ignore_line_to_append(&after, "b.log"), None);
    }
}

#[test]
fn every_unfolded_file_has_a_row() {
    let mut app = tree_app(&["src/a.rs", "src/sub/b.rs", "z.rs"]);
    app.collapsed_dirs.insert("src/sub/".to_string());
    app.rebuild_visible_items();
    let shown: Vec<String> = app
        .visible_items
        .iter()
        .filter_map(|n| match n {
            FileTreeNode::File { path, .. } => Some(path.clone()),
            FileTreeNode::Dir { .. } => None,
        })
        .collect();
    assert_eq!(shown, vec!["src/a.rs".to_string(), "z.rs".to_string()]);
}

#[test]
fn files_panel_is_lit_for_its_popups() {
    assert!(files_panel_highlighted(ActiveWindow::ChangedFiles));
    assert!(files_panel_highlighted(ActiveWindow::Commit));
    assert!(files_panel_highlighted(ActiveWindow::ConfirmDelete));
    assert!(files_panel_highlighted(ActiveWindow::ConfirmIgnore));
    assert!(!files_panel_highlighted(ActiveWindow::ConfirmRevert));
    assert!(!files_panel_highlighted(ActiveWindow::Diff));
}

#[test]
fn commit_message_rows_split_at_newlines() {
    let mut app = App::test_new();
    app.commit_message = "  \n ".to_string();
    assert_eq!(app.commit_message_rows(), None);
    app.commit_message = "Title\n\nBody".to_string();
    assert_eq!(
        app.commit_message_rows(),
        Some(vec!["Title".to_string(), String::new(), "Body".to_string()])
    );
    app.commit_message = "end\n".to_string();
    assert_eq!(app.commit_message_rows(), Some(vec!["end".to_string(), String::new()]));
}

#[test]
fn draft_reads_back_with_cursor_at_end() {
    let mut app = App::test_new();
    assert_eq!(app.commit_draft_contents(), None);
    app.commit_message = "Fix ñ\nmore".to_string();
    let saved = app.commit_draft_contents().unwrap();
    let mut later = App::test_new();
    later.restore_commit_draft(saved);
    assert_eq!(later.commit_message, "Fix ñ\nmore");
    assert_eq!(later.commit_message_cursor, later.commit_message.len());
}
