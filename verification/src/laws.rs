use vstd::prelude::*;

use crate::app::{next_index, previous_index, toggled, App};
use crate::commit::{count_char, cursor_down, cursor_up, lemma_line_start, line_start};
use crate::diff::styled_output;
use crate::glob::ignore_pattern_matches;
use crate::keys::{action_for, next_panel, Key, KeyAction};
use crate::svn::{
    header_fields, is_ignored, log_entries, log_entry, pattern_of_line, patterns_of,
    status_entries, status_lines_cuttable, unignored,
};
use crate::text::{
    char_index, find_str, is_boundary, lemma_find_char_is, lemma_find_str,
    byte_len, is_white, lemma_byte_len_take_increasing, lemma_char_index, lemma_lines_concat,
    lemma_lines_one, lemma_trim_end_last, lines, strip_cr, trim, trim_start,
};
use crate::tree::{lemma_insert_unique_sorted_set, tree_rows};
use crate::tree_props::{
    folded_between, lemma_tree_rows_files_complete, lemma_tree_rows_files_sound,
    lemma_tree_rows_keep_dir, shows_file,
};
use crate::types::{file_views, node_views, ActiveWindow, FileView, LineColor, ListState, NodeView};
use crate::workflow::{
    has_path, ignore_addition, ignore_listed, newline_terminated, restored_selection,
    sorted_paths,
};

verus! {

/// Opening the help window and closing it again brings back the window that was
/// active before, and changes nothing else but forgetting the saved window.
pub proof fn law_help_round_trip(a: App, b: App, c: App)
    requires
        a.help_opened(b),
        b.help_closed(c),
    ensures
        c.active_window == a.active_window,
        c == (App { prev_window: None, ..a }),
{
}

/// Moving down and then up a list of `len` rows comes back to the row the cursor
/// was on.
pub proof fn law_previous_undoes_next_index(i: usize, len: nat)
    requires
        i < len,
        len <= usize::MAX,
    ensures
        previous_index(Some(next_index(Some(i), len)), len) == i,
{
}

/// Moving up and then down a list of `len` rows comes back to the row the cursor
/// was on.
pub proof fn law_next_undoes_previous_index(i: usize, len: nat)
    requires
        i < len,
        len <= usize::MAX,
    ensures
        next_index(Some(previous_index(Some(i), len)), len) == i,
{
}

/// In the Files panel, moving the cursor down and then up puts it back on the row it
/// was on, and leaves the state as it was.
pub proof fn law_file_cursor_down_up(a: App, b: App, c: App, d1: bool, d2: bool)
    requires
        a.file_list_state@ matches Some(i) && i < a.visible_items@.len(),
        a.next_file_step(b, d1),
        b.previous_file_step(c, d2),
    ensures
        c == a,
{
    assert(a.visible_items@.len() == a.visible_items.len());
    ListState::lemma_same_selection(c.file_list_state, a.file_list_state);
}

/// In the Files panel, moving the cursor up and then down puts it back on the row it
/// was on, and leaves the state as it was.
pub proof fn law_file_cursor_up_down(a: App, b: App, c: App, d1: bool, d2: bool)
    requires
        a.file_list_state@ matches Some(i) && i < a.visible_items@.len(),
        a.previous_file_step(b, d1),
        b.next_file_step(c, d2),
    ensures
        c == a,
{
    assert(a.visible_items@.len() == a.visible_items.len());
    ListState::lemma_same_selection(c.file_list_state, a.file_list_state);
}

/// In the Revisions panel, moving the cursor down and then up puts it back on the
/// revision it was on, and leaves the state as it was.
pub proof fn law_revision_cursor_down_up(a: App, b: App, c: App, m1: bool, m2: bool)
    requires
        a.revision_list_state@ matches Some(i) && i < a.revision_list@.len(),
        a.next_revision_step(b, m1),
        b.previous_revision_step(c, m2),
    ensures
        c == a,
{
    assert(a.revision_list@.len() == a.revision_list.len());
    ListState::lemma_same_selection(c.revision_list_state, a.revision_list_state);
}

/// In the Revisions panel, moving the cursor up and then down puts it back on the
/// revision it was on, and leaves the state as it was.
pub proof fn law_revision_cursor_up_down(a: App, b: App, c: App, m1: bool, m2: bool)
    requires
        a.revision_list_state@ matches Some(i) && i < a.revision_list@.len(),
        a.previous_revision_step(b, m1),
        b.next_revision_step(c, m2),
    ensures
        c == a,
{
    assert(a.revision_list@.len() == a.revision_list.len());
    ListState::lemma_same_selection(c.revision_list_state, a.revision_list_state);
}

/// Among the files of a revision, moving the cursor down and then up puts it back
/// on the file it was on, and leaves the state as it was.
pub proof fn law_revision_file_cursor_down_up(a: App, b: App, c: App, m1: bool, m2: bool)
    requires
        a.revision_file_list_state@ matches Some(i) && i < a.revision_files@.len(),
        a.next_revision_file_step(b, m1),
        b.previous_revision_file_step(c, m2),
    ensures
        c == a,
{
    assert(a.revision_files@.len() == a.revision_files.len());
    ListState::lemma_same_selection(c.revision_file_list_state, a.revision_file_list_state);
}

/// Among the files of a revision, moving the cursor up and then down puts it back
/// on the file it was on, and leaves the state as it was.
pub proof fn law_revision_file_cursor_up_down(a: App, b: App, c: App, m1: bool, m2: bool)
    requires
        a.revision_file_list_state@ matches Some(i) && i < a.revision_files@.len(),
        a.previous_revision_file_step(b, m1),
        b.next_revision_file_step(c, m2),
    ensures
        c == a,
{
    assert(a.revision_files@.len() == a.revision_files.len());
    ListState::lemma_same_selection(c.revision_file_list_state, a.revision_file_list_state);
}

/// In the Branches panel, moving the cursor down and then up puts it back on the
/// branch it was on, and leaves the state as it was.
pub proof fn law_branch_cursor_down_up(a: App, b: App, c: App)
    requires
        a.branch_list_state@ matches Some(i) && i < a.branch_list@.len(),
        a.next_branch_step(b),
        b.previous_branch_step(c),
    ensures
        c == a,
{
    assert(a.branch_list@.len() == a.branch_list.len());
    ListState::lemma_same_selection(c.branch_list_state, a.branch_list_state);
}

/// In the Branches panel, moving the cursor up and then down puts it back on the
/// branch it was on, and leaves the state as it was.
pub proof fn law_branch_cursor_up_down(a: App, b: App, c: App)
    requires
        a.branch_list_state@ matches Some(i) && i < a.branch_list@.len(),
        a.previous_branch_step(b),
        b.next_branch_step(c),
    ensures
        c == a,
{
    assert(a.branch_list@.len() == a.branch_list.len());
    ListState::lemma_same_selection(c.branch_list_state, a.branch_list_state);
}

/// Scrolling the diff down one line and back up returns to where it was, unless it
/// was already at its last line.
pub proof fn law_scroll_down_up(a: App, b: App, c: App)
    requires
        a.diff_scroll < a.max_scroll(),
        a.scrolled_down(b),
        b.scrolled_up(c),
    ensures
        c == a,
{
}

/// Typing a character into the commit message and pressing backspace gives back the
/// message and the cursor as they were.
pub proof fn law_backspace_undoes_typing(a: App, ch: char, b: App, c: App)
    requires
        a.cursor_ok(),
        a.char_inserted(ch, b),
        b.backspaced(c),
    ensures
        c.commit_message@ == a.commit_message@,
        c.commit_message_cursor == a.commit_message_cursor,
        c == (App { commit_message: c.commit_message, ..a }),
{
    let k = a.cursor_chars();
    let m = a.commit_message@;
    assert(byte_len(m.take(k)) == a.commit_message_cursor);
    assert(b.commit_message_cursor != 0);
    assert(b.commit_message@.take(k) =~= m.take(k));
    assert(b.commit_message@.skip(k + 1) =~= m.skip(k));
    assert(m.take(k) + m.skip(k) =~= m);
}

/// Moving the commit cursor left and then right puts it back where it was, unless
/// it was at the start of the message.
pub proof fn law_right_undoes_left(a: App, b: App, c: App)
    requires
        a.cursor_ok(),
        a.commit_message_cursor > 0,
        a.cursor_moved_left(b),
        b.cursor_moved_right(c),
    ensures
        c == a,
{
    let k = a.cursor_chars();
    let m = a.commit_message@;
    assert(byte_len(m.take(k)) == a.commit_message_cursor);
    if k == 0 {
        assert(m.take(0) =~= Seq::<char>::empty());
    }
    lemma_byte_len_take_increasing(m, k - 1, k);
    if k < m.len() {
        lemma_byte_len_take_increasing(m, k, m.len() as int);
    }
    assert(m.take(m.len() as int) =~= m);
    lemma_char_index(m, b.commit_message_cursor as int, k - 1);
}

/// Moving the commit cursor right and then left puts it back where it was, unless
/// it was at the end of the message.
pub proof fn law_left_undoes_right(a: App, b: App, c: App)
    requires
        a.cursor_ok(),
        a.commit_message_cursor < byte_len(a.commit_message@),
        a.cursor_moved_right(b),
        b.cursor_moved_left(c),
    ensures
        c == a,
{
    let k = a.cursor_chars();
    let m = a.commit_message@;
    assert(byte_len(m.take(k)) == a.commit_message_cursor);
    lemma_byte_len_take_increasing(m, k, k + 1);
    lemma_char_index(m, b.commit_message_cursor as int, k + 1);
}

/// Toggling the mark of the same file twice leaves the marks as they were.
pub proof fn law_toggle_file_twice(a: App, b: App, c: App)
    requires
        a.hovered_row() matches Some(NodeView::File { .. }),
        a.selection_toggled(b),
        b.selection_toggled(c),
    ensures
        c.selected_files@ == a.selected_files@,
        c == (App { selected_files: c.selected_files, ..a }),
{
    assert(b.hovered_row() == a.hovered_row());
    assert(c.selected_files@ =~= a.selected_files@);
}

/// `sorted_paths` keeps the set of paths.
proof fn lemma_sorted_paths_set(ps: Seq<Seq<char>>)
    ensures
        sorted_paths(ps).to_set() == ps.to_set(),
    decreases ps.len(),
{
    if ps.len() == 0 {
        assert(sorted_paths(ps).to_set() =~= ps.to_set());
    } else {
        lemma_sorted_paths_set(ps.drop_last());
        lemma_insert_unique_sorted_set(sorted_paths(ps.drop_last()), ps.last());
        assert(ps =~= ps.drop_last().push(ps.last()));
        assert(ps.drop_last().push(ps.last()).to_set() =~= ps.drop_last().to_set().insert(
            ps.last(),
        ));
    }
}

/// A text written as newline-terminated lines reads back as those lines, when none
/// of them holds a newline or ends in a carriage return.
proof fn lemma_lines_of_newline_terminated(qs: Seq<Seq<char>>)
    requires
        forall|i: int| 0 <= i < qs.len() ==> !(#[trigger] qs[i]).contains('\n') && strip_cr(qs[i]) == qs[i],
    ensures
        lines(newline_terminated(qs)) == qs,
        newline_terminated(qs).len() == 0 || newline_terminated(qs).last() == '\n',
    decreases qs.len(),
{
    if qs.len() == 0 {
        assert(lines(newline_terminated(qs)) =~= qs);
    } else {
        let front = qs.drop_last();
        let q = qs.last();
        assert(q == qs[qs.len() - 1]);
        lemma_lines_of_newline_terminated(front);
        let a = newline_terminated(front);
        assert(newline_terminated(qs) =~= a + (q + seq!['\n']));
        lemma_lines_concat(a, q + seq!['\n']);
        lemma_lines_one(q);
        assert(lines(newline_terminated(qs)) =~= qs);
    }
}

/// A path without white space at either end does not end in a carriage return.
proof fn lemma_trimmed_has_no_cr(p: Seq<char>)
    requires
        trim(p) == p,
    ensures
        strip_cr(p) == p,
{
    lemma_trim_end_last(trim_start(p));
    if p.len() > 0 && p.last() == '\r' {
        assert(is_white(p.last()));
    }
}

/// Saving the marks and loading them back marks again exactly the marked files that
/// are still in the file list: the saved text (none when nothing is marked) restores
/// every marked path that a changed file has, and nothing else. This holds when every
/// marked path is a non-empty single line without white space at either end, as the
/// paths `svn status` prints are.
pub proof fn law_selection_round_trip(a: App)
    requires
        forall|p: Seq<char>|
            #[trigger] a.selected_files@.contains(p) ==> p.len() > 0 && !p.contains('\n')
                && trim(p) == p,
    ensures
        a.selection_text() is None ==> a.selected_files@ == Set::<Seq<char>>::empty(),
        a.selection_text() matches Some(t) ==> restored_selection(
            lines(t),
            file_views(a.file_list@),
        ) == a.selected_files@.filter(|p: Seq<char>| has_path(file_views(a.file_list@), p)),
{
    let ps = a.selected_files.paths();
    let sp = sorted_paths(ps);
    let files = file_views(a.file_list@);
    assert(a.selected_files@ == ps.to_set());
    lemma_sorted_paths_set(ps);
    assert forall|i: int| 0 <= i < sp.len() implies !(#[trigger] sp[i]).contains('\n') && strip_cr(sp[i])
        == sp[i] && trim(sp[i]) == sp[i] && sp[i].len() > 0 by {
        assert(sp.to_set().contains(sp[i]));
        assert(a.selected_files@.contains(sp[i]));
        lemma_trimmed_has_no_cr(sp[i]);
    }
    if a.selection_text() is Some {
        lemma_lines_of_newline_terminated(sp);
        let want = a.selected_files@.filter(|p: Seq<char>| has_path(files, p));
        let got = restored_selection(sp, files);
        assert forall|p: Seq<char>| got.contains(p) <==> want.contains(p) by {
            if got.contains(p) {
                let i = choose|i: int| 0 <= i < sp.len() && trim(#[trigger] sp[i]) == p;
                assert(sp.to_set().contains(sp[i]));
            }
            if want.contains(p) {
                assert(sp.to_set().contains(p));
                let i = choose|i: int| 0 <= i < sp.len() && sp[i] == p;
                assert(trim(sp[i]) == p);
            }
        }
        assert(got =~= want);
    }
}

/// A line's pattern is among the patterns of the lines it is one of.
proof fn lemma_patterns_of_has(ls: Seq<Seq<char>>, i: int, p: Seq<char>)
    requires
        0 <= i < ls.len(),
        pattern_of_line(ls[i]) == Some(p),
    ensures
        patterns_of(ls).contains(p),
    decreases ls.len(),
{
    if i == ls.len() - 1 {
        assert(patterns_of(ls).last() == p);
    } else {
        assert(ls.drop_last()[i] == ls[i]);
        lemma_patterns_of_has(ls.drop_last(), i, p);
        let k = choose|k: int| 0 <= k < patterns_of(ls.drop_last()).len() && patterns_of(ls.drop_last())[k] == p;
        assert(patterns_of(ls)[k] == p);
    }
}

/// No file that an ignore pattern hides is kept.
proof fn lemma_unignored_not_ignored(files: Seq<FileView>, pats: Seq<Seq<char>>)
    ensures
        forall|k: int| 0 <= k < unignored(files, pats).len() ==> !is_ignored(
            (#[trigger] unignored(files, pats)[k]).path,
            pats,
        ),
    decreases files.len(),
{
    if files.len() > 0 {
        lemma_unignored_not_ignored(files.drop_last(), pats);
        let prev = unignored(files.drop_last(), pats);
        assert forall|k: int| 0 <= k < unignored(files, pats).len() implies !is_ignored(
            (#[trigger] unignored(files, pats)[k]).path,
            pats,
        ) by {
            if k < prev.len() {
                assert(unignored(files, pats)[k] == prev[k]);
            }
        }
    }
}

/// Confirming that a file be ignored hides it: once what is appended to the ignore
/// file for it (nothing when a line already names it) is there, the patterns read
/// back from the file ignore its path, and no file with that path is kept from any
/// `svn status` entries. This holds for a non-empty single-line path without white
/// space at either end, without `*`, and not starting with `#` (a line starting with
/// `#` is read back as a comment).
pub proof fn law_ignored_file_is_hidden(existing: Seq<char>, target: Seq<char>, entries: Seq<FileView>)
    requires
        target.len() > 0,
        !target.contains('\n'),
        !target.contains('*'),
        trim(target) == target,
        target[0] != '#',
    ensures
        ({
            let after = match ignore_addition(existing, target) {
                Some(line) => existing + line,
                None => existing,
            };
            let pats = patterns_of(lines(after));
            &&& is_ignored(target, pats)
            &&& forall|k: int| 0 <= k < unignored(entries, pats).len() ==>
                (#[trigger] unignored(entries, pats)[k]).path != target
        }),
{
    let after = match ignore_addition(existing, target) {
        Some(line) => existing + line,
        None => existing,
    };
    let pats = patterns_of(lines(after));
    assert(pattern_of_line(target) == Some(target));
    if ignore_listed(existing, target) {
        let i = choose|i: int| 0 <= i < lines(existing).len() && trim(#[trigger] lines(existing)[i]) == target;
        lemma_patterns_of_has(lines(existing), i, target);
    } else {
        lemma_trimmed_has_no_cr(target);
        let x = if existing.len() == 0 || existing.last() == '\n' {
            existing
        } else {
            existing + seq!['\n']
        };
        assert(after =~= x + (target + seq!['\n']));
        lemma_lines_concat(x, target + seq!['\n']);
        lemma_lines_one(target);
        let ls = lines(after);
        assert(ls[ls.len() - 1] == target);
        lemma_patterns_of_has(ls, ls.len() - 1, target);
    }
    let k = choose|k: int| 0 <= k < pats.len() && pats[k] == target;
    assert(ignore_pattern_matches(target, pats[k]));
    lemma_unignored_not_ignored(entries, pats);
}

/// Folding the hovered directory and toggling again unfolds it: the collapsed
/// directories, the visible rows and the cursor all come back as they were (the
/// cursor stays on that directory in between). This holds when the rows shown are
/// those of the current files and collapsed directories, as every operation leaves
/// them.
pub proof fn law_fold_twice(a: App, b: App, c: App)
    requires
        a.rows_current(),
        a.hovered_dir() is Some,
        a.folder_toggled(b),
        b.folder_toggled(c),
    ensures
        b.hovered_dir() == a.hovered_dir(),
        c.collapsed_dirs@ == a.collapsed_dirs@,
        node_views(c.visible_items@) == node_views(a.visible_items@),
        c.file_list_state@ == a.file_list_state@,
        c == (App { collapsed_dirs: c.collapsed_dirs, visible_items: c.visible_items, ..a }),
{
    let files = file_views(a.file_list@);
    let i = a.file_list_state@.unwrap() as int;
    let d = match a.hovered_row() {
        Some(NodeView::Dir { path, .. }) => path,
        _ => Seq::empty(),
    };
    let c1 = a.collapsed_dirs@;
    let c2 = b.collapsed_dirs@;
    let rows1 = tree_rows(files, c1, Seq::empty(), 0);
    let rows2 = tree_rows(files, c2, Seq::empty(), 0);
    assert(rows1[i] == node_views(a.visible_items@)[i]);
    assert(c2 == toggled(c1, d));
    lemma_tree_rows_keep_dir(files, c1, c2, d, Seq::empty(), 0, i);
    assert(b.visible_items@.len() == rows2.len());
    assert(b.file_list_state@ == Some(i as usize));
    assert(rows2[i] == node_views(b.visible_items@)[i]);
    assert(b.visible_items@[i]@ == rows2[i]);
    assert(rows2[i] matches NodeView::Dir { path, .. } && path == d);
    assert(b.hovered_dir() == Some(d));
    assert(c.collapsed_dirs@ =~= c1);
    assert(node_views(c.visible_items@) == rows1);
    assert(c.visible_items@.len() == a.visible_items@.len());
    assert(c.file_list_state@ == a.file_list_state@);
    ListState::lemma_same_selection(c.file_list_state, a.file_list_state);
}

/// Pressing `Tab` moves the focus to another panel, and four presses bring it back
/// to the panel it started on.
pub proof fn law_tab_cycles_panels(w: ActiveWindow)
    requires
        w == ActiveWindow::ChangedFiles || w == ActiveWindow::Branches || w
            == ActiveWindow::Revisions || w == ActiveWindow::Diff,
    ensures
        action_for(w, Key::Tab) == KeyAction::Focus(next_panel(w)),
        next_panel(w) != w,
        next_panel(next_panel(next_panel(next_panel(w)))) == w,
{
}

/// Only the last delete can be undone: once its backup has been taken for an undo,
/// a second undo finds nothing to restore.
pub proof fn law_undo_once(
    a: App,
    first: Option<(String, Vec<String>)>,
    b: App,
    second: Option<(String, Vec<String>)>,
    c: App,
)
    requires
        a.backup_taken(first, b),
        b.backup_taken(second, c),
    ensures
        first == a.last_backup,
        second is None,
        c == b,
{
}

/// Adding the same path to the ignore file twice writes it once: after what the
/// first addition appends, the second appends nothing. This holds for a single-line
/// path without white space at either end.
pub proof fn law_ignore_added_once(existing: Seq<char>, target: Seq<char>)
    requires
        !target.contains('\n'),
        trim(target) == target,
    ensures
        ({
            let after = match ignore_addition(existing, target) {
                Some(line) => existing + line,
                None => existing,
            };
            ignore_addition(after, target) is None
        }),
{
    if !ignore_listed(existing, target) {
        lemma_trimmed_has_no_cr(target);
        let x = if existing.len() == 0 || existing.last() == '\n' {
            existing
        } else {
            existing + seq!['\n']
        };
        let after = x + (target + seq!['\n']);
        assert(match ignore_addition(existing, target) {
            Some(line) => existing + line,
            None => existing,
        } =~= after);
        lemma_lines_concat(x, target + seq!['\n']);
        lemma_lines_one(target);
        let ls = lines(after);
        assert(ls[ls.len() - 1] == target);
        assert(ignore_listed(after, target));
    }
}

/// The Files panel shows each changed file unless a folded directory holds it: a
/// changed file has a row, with its status, exactly when no collapsed directory on its
/// path contains it; and every file row is one of the changed files.
pub proof fn law_rows_show_unfolded_files(a: App)
    ensures
        forall|j: int|
            0 <= j < a.file_list@.len() ==> (shows_file(
                a.expected_rows(),
                #[trigger] file_views(a.file_list@)[j],
            ) <==> !folded_between(a.collapsed_dirs@, Seq::empty(), file_views(a.file_list@)[j].path)),
        forall|i: int|
            0 <= i < a.expected_rows().len() ==> (#[trigger] a.expected_rows()[i] matches NodeView::File {
                status,
                path,
                ..
            } ==> file_views(a.file_list@).contains(FileView { status, path })),
{
    let files = file_views(a.file_list@);
    let c = a.collapsed_dirs@;
    let rows = a.expected_rows();
    let top = Seq::<char>::empty();
    lemma_tree_rows_files_sound(files, c, top, 0);
    assert forall|j: int| 0 <= j < a.file_list@.len() implies (shows_file(
        rows,
        #[trigger] files[j],
    ) <==> !folded_between(c, top, files[j].path)) by {
        assert(top.is_prefix_of(files[j].path)) by {
            assert(top =~= files[j].path.subrange(0, 0));
        }
        if !folded_between(c, top, files[j].path) {
            lemma_tree_rows_files_complete(files, c, top, 0, j);
        }
        if shows_file(rows, files[j]) {
            let i = choose|i: int|
                0 <= i < rows.len() && (#[trigger] rows[i] matches NodeView::File {
                    status,
                    path,
                    ..
                } && status == files[j].status && path == files[j].path);
            assert(rows[i] matches NodeView::File { path, .. } && !folded_between(c, top, path));
        }
    }
}

/// Folding or unfolding a directory keeps the rows shown those of the files and
/// the collapsed directories.
pub proof fn law_fold_keeps_rows_current(a: App, b: App)
    requires
        a.rows_current(),
        a.folder_toggled(b),
    ensures
        b.rows_current(),
{
}

/// Saving the commit message as a draft and loading it back, into this state or a
/// later one, gives the same message with the cursor at its end; an empty message is
/// not saved, and loading then changes nothing.
pub proof fn law_draft_round_trip(a: App, x: App, y: App)
    requires
        a.message_fits(),
        x.draft_restored(
            match a.draft_text() {
                Some(t) => t,
                None => Seq::empty(),
            },
            y,
        ),
    ensures
        a.draft_text() is None ==> y == x,
        a.draft_text() is Some ==> {
            &&& y.commit_message@ == a.commit_message@
            &&& y.cursor_ok()
            &&& y.cursor_chars() == a.commit_message@.len()
        },
{
}

/// Styling `svn diff` output gives one row per line, holding the line's text, not
/// bold, coloured by how the line starts: a line starting with `-` but not `---` is
/// red whatever its length (a removed blank line is just `-`), one starting with `+`
/// but not `+++` green, one starting with `@@` cyan, and every other line plain.
pub proof fn law_diff_colours(output: Seq<char>)
    ensures
        styled_output(output).len() == lines(output).len(),
        forall|i: int|
            0 <= i < lines(output).len() ==> {
                let l = lines(output)[i];
                let row = #[trigger] styled_output(output)[i];
                let removed = l.len() >= 1 && l[0] == '-' && !(l.len() >= 3 && l[1] == '-' && l[2]
                    == '-');
                let added = l.len() >= 1 && l[0] == '+' && !(l.len() >= 3 && l[1] == '+' && l[2]
                    == '+');
                let hunk = l.len() >= 2 && l[0] == '@' && l[1] == '@';
                &&& row.text == l
                &&& !row.bold
                &&& removed ==> row.fg == Some(LineColor::Red)
                &&& added ==> row.fg == Some(LineColor::Green)
                &&& hunk ==> row.fg == Some(LineColor::Cyan)
                &&& !removed && !added && !hunk ==> row.fg is None
            },
{
}

/// `q` quits whichever window has the focus, and `r` refreshes; `j` and `k` move
/// the Files cursor while the Files panel has the focus and do nothing elsewhere.
pub proof fn law_keys(w: ActiveWindow)
    ensures
        action_for(w, Key::Char('q')) == KeyAction::Quit,
        action_for(w, Key::Char('r')) == KeyAction::Refresh,
        action_for(w, Key::Char('j')) == if w == ActiveWindow::ChangedFiles {
            KeyAction::NextFile
        } else {
            KeyAction::Ignore
        },
        action_for(w, Key::Char('k')) == if w == ActiveWindow::ChangedFiles {
            KeyAction::PreviousFile
        } else {
            KeyAction::Ignore
        },
{
}

/// Where the line holding position `k` starts is the position after the last
/// newline before `k`.
proof fn lemma_line_start_is(s: Seq<char>, k: int, p: int)
    requires
        0 <= p <= k <= s.len(),
        p == 0 || s[p - 1] == '\n',
        forall|j: int| p <= j < k ==> s[j] != '\n',
    ensures
        line_start(s.take(k)) == p,
{
    let t = s.take(k);
    lemma_line_start(t);
    let ls = line_start(t) as int;
    if ls < p {
        assert(t[p - 1] == s[p - 1]);
    } else if ls > p {
        assert(t[ls - 1] == s[ls - 1]);
    }
}

/// Newlines before `b` are those before `a` when none lies in between.
proof fn lemma_count_newlines_steady(s: Seq<char>, a: int, b: int)
    requires
        0 <= a <= b <= s.len(),
        forall|j: int| a <= j < b ==> s[j] != '\n',
    ensures
        count_char(s.take(b), '\n') == count_char(s.take(a), '\n'),
    decreases b - a,
{
    if a < b {
        assert(s.take(b).drop_last() =~= s.take(b - 1));
        assert(s.take(b).last() == s[b - 1]);
        lemma_count_newlines_steady(s, a, b - 1);
    }
}

/// Moving the commit cursor down from a line that is not the last puts it on the
/// next line: one more newline lies before it, and its column is the smaller of its
/// old column and the length of that next line. Here the cursor's line starts at
/// `p`, that line's newline is at `n`, and the next line holds `m` characters.
pub proof fn law_move_down_next_line(msg: Seq<char>, k: int, p: int, n: int, m: int)
    requires
        0 <= p <= k <= n < msg.len(),
        p == 0 || msg[p - 1] == '\n',
        forall|j: int| p <= j < n ==> msg[j] != '\n',
        msg[n] == '\n',
        0 <= m,
        n + 1 + m <= msg.len(),
        forall|j: int| n + 1 <= j < n + 1 + m ==> msg[j] != '\n',
        n + 1 + m == msg.len() || msg[n + 1 + m] == '\n',
    ensures
        ({
            let col = if k - p <= m {
                k - p
            } else {
                m
            };
            let d = cursor_down(msg, k);
            &&& d == n + 1 + col
            &&& count_char(msg.take(d), '\n') == count_char(msg.take(k), '\n') + 1
            &&& d - line_start(msg.take(d)) == col
        }),
{
    let col = if k - p <= m {
        k - p
    } else {
        m
    };
    lemma_line_start_is(msg, k, p);
    let rest = msg.skip(k);
    assert forall|j: int| 0 <= j < n - k implies rest[j] != '\n' by {
        assert(rest[j] == msg[k + j]);
    }
    assert(rest[n - k] == msg[n]);
    lemma_find_char_is(rest, '\n', n - k);
    let after = msg.skip(n + 1);
    assert forall|j: int| 0 <= j < m implies after[j] != '\n' by {
        assert(after[j] == msg[n + 1 + j]);
    }
    if n + 1 + m < msg.len() {
        assert(after[m] == msg[n + 1 + m]);
    }
    lemma_find_char_is(after, '\n', m);
    let d = n + 1 + col;
    assert(cursor_down(msg, k) == d);
    lemma_count_newlines_steady(msg, k, n);
    lemma_count_newlines_steady(msg, n + 1, d);
    assert(msg.take(n + 1).drop_last() =~= msg.take(n));
    assert(msg.take(n + 1).last() == msg[n]);
    lemma_line_start_is(msg, d, n + 1);
}

/// Moving the commit cursor down on the last line puts it at the end of the message.
pub proof fn law_move_down_last_line(msg: Seq<char>, k: int)
    requires
        0 <= k <= msg.len(),
        forall|j: int| k <= j < msg.len() ==> msg[j] != '\n',
    ensures
        cursor_down(msg, k) == msg.len(),
{
    let rest = msg.skip(k);
    assert forall|j: int| 0 <= j < rest.len() implies rest[j] != '\n' by {
        assert(rest[j] == msg[k + j]);
    }
    lemma_find_char_is(rest, '\n', rest.len() as int);
}

/// How many of the lines `ls` are longer than eight bytes.
pub open spec fn long_line_count(ls: Seq<Seq<char>>) -> nat
    decreases ls.len(),
{
    if ls.len() == 0 {
        0
    } else {
        long_line_count(ls.drop_last()) + if byte_len(ls.last()) > 8 {
            1nat
        } else {
            0nat
        }
    }
}

/// Reading `svn status` lines keeps every line longer than eight bytes, whatever its
/// status character, and only those, in order: the entry for such a line has the
/// line's first character as status and the text from its ninth byte on as path.
pub proof fn law_status_lines_kept(ls: Seq<Seq<char>>)
    requires
        status_lines_cuttable(ls),
    ensures
        status_entries(ls).len() == long_line_count(ls),
        forall|i: int|
            0 <= i < ls.len() && byte_len(#[trigger] ls[i]) > 8 ==> {
                let e = status_entries(ls)[long_line_count(ls.take(i)) as int];
                &&& e.status == seq![ls[i][0]]
                &&& exists|j: int|
                    0 <= j <= ls[i].len() && byte_len(ls[i].take(j)) == 8 && e.path == ls[i].skip(
                        j,
                    )
            },
    decreases ls.len(),
{
    if ls.len() > 0 {
        let front = ls.drop_last();
        assert(status_lines_cuttable(front)) by {
            assert forall|i: int|
                0 <= i < front.len() && byte_len(#[trigger] front[i]) > 8 implies is_boundary(
                front[i],
                1,
            ) && is_boundary(front[i], 8) by {
                assert(front[i] == ls[i]);
            }
        }
        law_status_lines_kept(front);
        let prev = status_entries(front);
        assert forall|i: int| 0 <= i < ls.len() && byte_len(#[trigger] ls[i]) > 8 implies {
            let e = status_entries(ls)[long_line_count(ls.take(i)) as int];
            &&& e.status == seq![ls[i][0]]
            &&& exists|j: int|
                0 <= j <= ls[i].len() && byte_len(ls[i].take(j)) == 8 && e.path == ls[i].skip(j)
        } by {
            if i < ls.len() - 1 {
                assert(front[i] == ls[i]);
                assert(front.take(i) =~= ls.take(i));
                lemma_long_line_count_le(front, i);
            } else {
                assert(ls.take(i) =~= front);
                let l = ls[i];
                assert(l == ls.last());
                assert(is_boundary(l, 8));
                let j = char_index(l, 8);
                assert(byte_len(l.take(j)) == 8);
                assert(l.take(1) =~= seq![l[0]]);
            }
        }
    }
}

/// Fewer lines hold no more long lines.
proof fn lemma_long_line_count_le(ls: Seq<Seq<char>>, i: int)
    requires
        0 <= i < ls.len(),
        byte_len(ls[i]) > 8,
    ensures
        long_line_count(ls.take(i)) < long_line_count(ls),
    decreases ls.len(),
{
    if i < ls.len() - 1 {
        assert(ls.drop_last()[i] == ls[i]);
        assert(ls.drop_last().take(i) =~= ls.take(i));
        lemma_long_line_count_le(ls.drop_last(), i);
    } else {
        assert(ls.take(i) =~= ls.drop_last());
    }
}

/// Whether `h` holds ` | ` twice, the second after the end of the first.
pub open spec fn two_separators(h: Seq<char>) -> bool {
    exists|i: int, j: int|
        0 <= i && i + 3 <= j && j + 3 <= h.len() && #[trigger] h.subrange(i, i + 3) == " | "@
            && #[trigger] h.subrange(j, j + 3) == " | "@
}

/// Whether a block of `svn log` output starts, once trimmed, with a header line that
/// holds ` | ` twice.
pub open spec fn has_log_header(b: Seq<char>) -> bool {
    let t = trim(b);
    t.len() > 0 && lines(t).len() > 0 && two_separators(lines(t)[0])
}

/// How many of the blocks `bs` have a log header.
pub open spec fn log_block_count(bs: Seq<Seq<char>>) -> nat
    decreases bs.len(),
{
    if bs.len() == 0 {
        0
    } else {
        log_block_count(bs.drop_last()) + if has_log_header(bs.last()) {
            1nat
        } else {
            0nat
        }
    }
}

/// Where `find_str` finds `pat`, `pat` lies.
proof fn lemma_find_str_found(s: Seq<char>, pat: Seq<char>)
    requires
        find_str(s, pat) < s.len(),
    ensures
        0 <= find_str(s, pat),
        find_str(s, pat) + pat.len() <= s.len(),
        s.skip(find_str(s, pat)).take(pat.len() as int) == pat,
{
    lemma_find_str(s, pat);
    let f = find_str(s, pat);
    assert(s.skip(f).take(pat.len() as int) =~= pat);
}

/// When the first three ` | `-separated fields of a header are found, it holds ` | `
/// twice and starts with them, joined by ` | `.
proof fn lemma_header_fields_found(h: Seq<char>)
    requires
        header_fields(h) is Some,
    ensures
        two_separators(h),
        header_fields(h) matches Some((r, a, d)) ==> (r + " | "@ + a + " | "@ + d).is_prefix_of(h),
{
    let sep = " | "@;
    assert(sep.len() == 3) by {
        reveal_strlit(" | ");
    }
    let i0 = find_str(h, sep);
    lemma_find_str_found(h, sep);
    let r1 = h.skip(i0 + 3);
    let i1 = find_str(r1, sep);
    lemma_find_str_found(r1, sep);
    let r2 = r1.skip(i1 + 3);
    let i2 = find_str(r2, sep);
    lemma_find_str(r2, sep);
    let j = i0 + 3 + i1;
    assert(i0 + 3 <= h.len());
    assert(i1 + 3 <= r1.len());
    assert(h.skip(i0).take(3) == sep);
    assert(r1.skip(i1).take(3) == sep);
    assert forall|k: int| 0 <= k < 3 implies h.subrange(i0, i0 + 3)[k] == sep[k] by {
        assert(h.skip(i0).take(3)[k] == h[i0 + k]);
    }
    assert(h.subrange(i0, i0 + 3) =~= sep);
    assert forall|k: int| 0 <= k < 3 implies h.subrange(j, j + 3)[k] == sep[k] by {
        assert(r1.skip(i1).take(3)[k] == h[j + k]);
    }
    assert(h.subrange(j, j + 3) =~= sep);
    assert(two_separators(h));
    let x = h.take(i0) + sep + r1.take(i1) + sep + r2.take(i2);
    assert(x.len() <= h.len());
    assert forall|k: int| 0 <= k < x.len() implies x[k] == h[k] by {
        if k < i0 {
        } else if k < i0 + 3 {
            assert(x[k] == sep[k - i0]);
            assert(h.skip(i0).take(3)[k - i0] == h[k]);
        } else if k < j {
            assert(x[k] == r1[k - i0 - 3]);
        } else if k < j + 3 {
            assert(x[k] == sep[k - j]);
            assert(r1.skip(i1).take(3)[k - j] == r1[k - i0 - 3]);
        } else {
            assert(x[k] == r2[k - j - 3]);
        }
    }
    assert(x =~= h.subrange(0, x.len() as int));
}

/// A header that holds ` | ` twice has its first three fields found.
proof fn lemma_header_fields_of_two(h: Seq<char>)
    requires
        two_separators(h),
    ensures
        header_fields(h) is Some,
{
    let sep = " | "@;
    assert(sep.len() == 3) by {
        reveal_strlit(" | ");
    }
    let (i, j) = choose|i: int, j: int|
        0 <= i && i + 3 <= j && j + 3 <= h.len() && #[trigger] h.subrange(i, i + 3) == sep
            && #[trigger] h.subrange(j, j + 3) == sep;
    lemma_find_str(h, sep);
    let i0 = find_str(h, sep);
    assert(sep.is_prefix_of(h.skip(i))) by {
        assert(sep =~= h.skip(i).subrange(0, 3));
    }
    assert(i0 <= i);
    let r1 = h.skip(i0 + 3);
    lemma_find_str(r1, sep);
    let jj = j - i0 - 3;
    assert(sep.is_prefix_of(r1.skip(jj))) by {
        assert(sep =~= r1.skip(jj).subrange(0, 3));
    }
    assert(find_str(r1, sep) <= jj);
}

/// The first three ` | `-separated fields of a header are found exactly when it
/// holds ` | ` twice, and then the header starts with them, joined by ` | `.
proof fn lemma_header_fields(h: Seq<char>)
    ensures
        header_fields(h) is Some <==> two_separators(h),
        header_fields(h) matches Some((r, a, d)) ==> (r + " | "@ + a + " | "@ + d).is_prefix_of(h),
{
    if header_fields(h) is Some {
        lemma_header_fields_found(h);
    }
    if two_separators(h) {
        lemma_header_fields_of_two(h);
    }
}

/// Reading `svn log` output keeps every block whose trimmed first line holds ` | `
/// twice, whatever its message lines hold (an empty message too), and only those, in
/// order: the entry for such a block has revision, author and date that, joined by
/// ` | `, start that header line.
pub proof fn law_log_blocks_kept(bs: Seq<Seq<char>>)
    ensures
        log_entries(bs).len() == log_block_count(bs),
        forall|i: int|
            0 <= i < bs.len() && has_log_header(#[trigger] bs[i]) ==> {
                let e = log_entries(bs)[log_block_count(bs.take(i)) as int];
                (e.revision + " | "@ + e.author + " | "@ + e.date).is_prefix_of(
                    lines(trim(bs[i]))[0],
                )
            },
    decreases bs.len(),
{
    if bs.len() > 0 {
        let front = bs.drop_last();
        law_log_blocks_kept(front);
        let b = bs.last();
        let t = trim(b);
        if t.len() > 0 && lines(t).len() > 0 {
            lemma_header_fields(lines(t)[0]);
        }
        assert(log_entry(b) is Some <==> has_log_header(b));
        assert forall|i: int| 0 <= i < bs.len() && has_log_header(#[trigger] bs[i]) implies {
            let e = log_entries(bs)[log_block_count(bs.take(i)) as int];
            (e.revision + " | "@ + e.author + " | "@ + e.date).is_prefix_of(lines(trim(bs[i]))[0])
        } by {
            if i < bs.len() - 1 {
                assert(front[i] == bs[i]);
                assert(front.take(i) =~= bs.take(i));
                lemma_log_block_count_le(front, i);
            } else {
                assert(bs.take(i) =~= front);
                assert(bs[i] == b);
            }
        }
    }
}

/// Fewer blocks hold no more log headers.
proof fn lemma_log_block_count_le(bs: Seq<Seq<char>>, i: int)
    requires
        0 <= i < bs.len(),
        has_log_header(bs[i]),
    ensures
        log_block_count(bs.take(i)) < log_block_count(bs),
    decreases bs.len(),
{
    if i < bs.len() - 1 {
        assert(bs.drop_last()[i] == bs[i]);
        assert(bs.drop_last().take(i) =~= bs.take(i));
        lemma_log_block_count_le(bs.drop_last(), i);
    } else {
        assert(bs.take(i) =~= bs.drop_last());
    }
}

/// Moving the commit cursor up from a line that is not the first puts it on the
/// previous line: one newline fewer lies before it, and its column is the smaller of
/// its old column and the length of that previous line. Here the previous line
/// starts at `q` and the cursor's line at `p`, just after the previous line's newline.
pub proof fn law_move_up_previous_line(msg: Seq<char>, k: int, p: int, q: int)
    requires
        0 <= q < p <= k <= msg.len(),
        msg[p - 1] == '\n',
        forall|j: int| p <= j < k ==> msg[j] != '\n',
        q == 0 || msg[q - 1] == '\n',
        forall|j: int| q <= j < p - 1 ==> msg[j] != '\n',
    ensures
        ({
            let col = if k - p <= p - 1 - q {
                k - p
            } else {
                p - 1 - q
            };
            let u = cursor_up(msg, k);
            &&& u == q + col
            &&& count_char(msg.take(u), '\n') + 1 == count_char(msg.take(k), '\n')
            &&& u - line_start(msg.take(u)) == col
        }),
{
    let col = if k - p <= p - 1 - q {
        k - p
    } else {
        p - 1 - q
    };
    lemma_line_start_is(msg, k, p);
    lemma_line_start_is(msg, p - 1, q);
    let u = q + col;
    assert(cursor_up(msg, k) == u);
    lemma_count_newlines_steady(msg, p, k);
    lemma_count_newlines_steady(msg, u, p - 1);
    assert(msg.take(p).drop_last() =~= msg.take(p - 1));
    assert(msg.take(p).last() == msg[p - 1]);
    lemma_line_start_is(msg, u, q);
}

/// Moving the commit cursor up on the first line puts it at the start of the message.
pub proof fn law_move_up_first_line(msg: Seq<char>, k: int)
    requires
        0 <= k <= msg.len(),
        forall|j: int| 0 <= j < k ==> msg[j] != '\n',
    ensures
        cursor_up(msg, k) == 0,
{
    lemma_line_start_is(msg, k, 0);
}

} // verus!
